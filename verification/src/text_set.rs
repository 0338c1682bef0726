//! An ordered set of texts, kept as a sorted vector of strings.
//!
//! Texts are ordered as strings are: by their UTF-8 bytes, one after the
//! other.

use crate::model::{clone_strings, strings_view};
use vstd::prelude::*;
use vstd::utf8::{encode_utf8, encode_utf8_decode_utf8};

verus! {

/// Whether `a` and `b` agree before position `k` and `a` is the smaller from
/// there: it ends at `k`, or holds the smaller byte.
pub open spec fn less_at(a: Seq<u8>, b: Seq<u8>, k: int) -> bool {
    &&& 0 <= k <= a.len()
    &&& k < b.len()
    &&& forall|i: int| 0 <= i < k ==> a[i] == b[i]
    &&& (k == a.len() || a[k] < b[k])
}

/// Whether `a` comes before `b`, byte by byte.
pub open spec fn bytes_less(a: Seq<u8>, b: Seq<u8>) -> bool {
    exists|k: int| #[trigger] less_at(a, b, k)
}

/// Whether the text `a` comes before the text `b` in the order of strings.
pub open spec fn text_less(a: Seq<char>, b: Seq<char>) -> bool {
    bytes_less(encode_utf8(a), encode_utf8(b))
}

/// Whether each text of `texts` comes before all that follow it.
pub open spec fn strictly_increasing(texts: Seq<Seq<char>>) -> bool {
    forall|i: int, j: int| 0 <= i < j < texts.len() ==> text_less(texts[i], texts[j])
}

/// No byte sequence comes before itself.
pub proof fn lemma_bytes_less_irreflexive(a: Seq<u8>)
    ensures
        !bytes_less(a, a),
{
}

/// The order of byte sequences is transitive.
pub proof fn lemma_bytes_less_transitive(a: Seq<u8>, b: Seq<u8>, c: Seq<u8>)
    requires
        bytes_less(a, b),
        bytes_less(b, c),
    ensures
        bytes_less(a, c),
{
    let k1 = choose|k: int| #[trigger] less_at(a, b, k);
    let k2 = choose|k: int| #[trigger] less_at(b, c, k);
    if k1 <= k2 {
        assert(less_at(a, c, k1));
    } else {
        assert(less_at(a, c, k2));
    }
}

/// No text comes before itself.
pub proof fn lemma_text_less_irreflexive(a: Seq<char>)
    ensures
        !text_less(a, a),
{
    lemma_bytes_less_irreflexive(encode_utf8(a));
}

/// The order of texts is transitive.
pub proof fn lemma_text_less_transitive(a: Seq<char>, b: Seq<char>, c: Seq<char>)
    requires
        text_less(a, b),
        text_less(b, c),
    ensures
        text_less(a, c),
{
    lemma_bytes_less_transitive(encode_utf8(a), encode_utf8(b), encode_utf8(c));
}

/// Of two texts, one comes before the other or they are the same text.
pub proof fn lemma_text_less_total(a: Seq<char>, b: Seq<char>)
    ensures
        text_less(a, b) || text_less(b, a) || a == b,
{
    let x = encode_utf8(a);
    let y = encode_utf8(b);
    lemma_bytes_compare(x, y, 0);
    if x == y {
        encode_utf8_decode_utf8(a);
        encode_utf8_decode_utf8(b);
    }
}

/// Two byte sequences that agree before `k` are ordered, or equal.
proof fn lemma_bytes_compare(x: Seq<u8>, y: Seq<u8>, k: int)
    requires
        0 <= k <= x.len(),
        k <= y.len(),
        forall|i: int| 0 <= i < k ==> x[i] == y[i],
    ensures
        bytes_less(x, y) || bytes_less(y, x) || x == y,
    decreases x.len() - k,
{
    if k == x.len() {
        if k < y.len() {
            assert(less_at(x, y, k));
        }
    } else if k == y.len() {
        assert(less_at(y, x, k));
    } else if x[k] < y[k] {
        assert(less_at(x, y, k));
    } else if y[k] < x[k] {
        assert(less_at(y, x, k));
    } else {
        lemma_bytes_compare(x, y, k + 1);
    }
}

/// How one text stands to another in the order of strings.
#[derive(Debug, PartialEq, Eq)]
pub enum TextOrder {
    Before,
    Same,
    After,
}

/// Compares two texts in the order of strings.
pub fn compare_texts(a: &str, b: &str) -> (order: TextOrder)
    ensures
        order is Before <==> text_less(a@, b@),
        order is Same <==> a@ == b@,
        order is After <==> text_less(b@, a@),
{
    let x = a.as_bytes();
    let y = b.as_bytes();
    let mut k: usize = 0;
    while k < x.len() && k < y.len() && x[k] == y[k]
        invariant
            k <= x.len(),
            k <= y.len(),
            forall|i: int| 0 <= i < k ==> x@[i] == y@[i],
        decreases x.len() - k,
    {
        k += 1;
    }
    proof {
        lemma_text_less_irreflexive(a@);
        if text_less(a@, b@) && text_less(b@, a@) {
            lemma_text_less_transitive(a@, b@, a@);
        }
    }
    if k == x.len() {
        if k == y.len() {
            proof {
                assert(x@ =~= y@);
                encode_utf8_decode_utf8(a@);
                encode_utf8_decode_utf8(b@);
            }
            TextOrder::Same
        } else {
            assert(less_at(x@, y@, k as int));
            TextOrder::Before
        }
    } else if k == y.len() {
        assert(less_at(y@, x@, k as int));
        TextOrder::After
    } else if x[k] < y[k] {
        assert(less_at(x@, y@, k as int));
        TextOrder::Before
    } else {
        assert(less_at(y@, x@, k as int));
        TextOrder::After
    }
}

/// A set of texts. It lists its texts in the order of strings, each once:
/// the listing is strictly increasing.
#[derive(Debug)]
pub struct TextSet {
    items: Vec<String>,
}

impl View for TextSet {
    type V = Set<Seq<char>>;

    /// The texts that the set holds.
    open spec fn view(&self) -> Set<Seq<char>> {
        self.texts().to_set()
    }
}

impl TextSet {
    /// The texts of the set, in the order of strings.
    pub closed spec fn texts(&self) -> Seq<Seq<char>> {
        strings_view(self.items@)
    }

    #[verifier::type_invariant]
    spec fn sorted(&self) -> bool {
        strictly_increasing(strings_view(self.items@))
    }

    /// The empty set.
    pub fn new() -> (set: TextSet)
        ensures
            set.texts() == Seq::<Seq<char>>::empty(),
            set@ == Set::<Seq<char>>::empty(),
            strictly_increasing(set.texts()),
    {
        TextSet { items: Vec::new() }
    }

    /// The number of texts in the set.
    pub fn len(&self) -> (n: usize)
        ensures
            n == self.texts().len(),
            strictly_increasing(self.texts()),
    {
        proof {
            use_type_invariant(self);
        }
        self.items.len()
    }

    /// The text at position `i` of the listing.
    pub fn get(&self, i: usize) -> (text: &String)
        requires
            i < self.texts().len(),
        ensures
            text@ == self.texts()[i as int],
    {
        &self.items[i]
    }

    /// A copy of the texts of the set, in the order of strings.
    pub fn to_vec(&self) -> (list: Vec<String>)
        ensures
            strings_view(list@) == self.texts(),
            strictly_increasing(strings_view(list@)),
            strings_view(list@).no_duplicates(),
    {
        proof {
            use_type_invariant(self);
        }
        let list = clone_strings(&self.items);
        proof {
            let texts = strings_view(list@);
            assert forall|i: int, j: int|
                0 <= i < texts.len() && 0 <= j < texts.len() && i != j implies texts[i]
                != texts[j] by {
                lemma_text_less_irreflexive(texts[i]);
            }
        }
        list
    }

    /// Moves the strings out of the set and leaves it empty.
    fn take_items(&mut self) -> (items: Vec<String>)
        ensures
            items@ == old(self).items@,
    {
        let mut taken = TextSet::new();
        std::mem::swap(self, &mut taken);
        taken.items
    }

    /// Where `text` stands in the listing: its position and `true` where the
    /// set holds it, else the position before which it belongs and `false`.
    fn position(&self, text: &str) -> (r: (usize, bool))
        ensures
            r.0 <= self.texts().len(),
            r.1 ==> r.0 < self.texts().len() && self.texts()[r.0 as int] == text@,
            !r.1 ==> forall|i: int| 0 <= i < r.0 ==> text_less(self.texts()[i], text@),
            !r.1 ==> forall|i: int|
                r.0 <= i < self.texts().len() ==> text_less(text@, self.texts()[i]),
    {
        proof {
            use_type_invariant(self);
        }
        let ghost texts = self.texts();
        let mut lo: usize = 0;
        let mut hi: usize = self.items.len();
        while lo < hi
            invariant
                texts == strings_view(self.items@),
                strictly_increasing(texts),
                lo <= hi <= texts.len(),
                forall|i: int| 0 <= i < lo ==> text_less(texts[i], text@),
                forall|i: int| hi <= i < texts.len() ==> text_less(text@, texts[i]),
            decreases hi - lo,
        {
            let mid: usize = lo + (hi - lo) / 2;
            match compare_texts(self.items[mid].as_str(), text) {
                TextOrder::Before => {
                    assert forall|i: int| 0 <= i < mid + 1 implies text_less(texts[i], text@) by {
                        if i < mid {
                            lemma_text_less_transitive(texts[i], texts[mid as int], text@);
                        }
                    }
                    lo = mid + 1;
                },
                TextOrder::After => {
                    assert forall|i: int| mid <= i < texts.len() implies text_less(
                        text@,
                        texts[i],
                    ) by {
                        if mid < i {
                            lemma_text_less_transitive(text@, texts[mid as int], texts[i]);
                        }
                    }
                    hi = mid;
                },
                TextOrder::Same => {
                    return (mid, true);
                },
            }
        }
        (lo, false)
    }

    /// Whether the set holds `text`.
    pub fn contains(&self, text: &str) -> (found: bool)
        ensures
            found == self@.contains(text@),
    {
        let (at, found) = self.position(text);
        proof {
            if !found {
                lemma_text_less_irreflexive(text@);
            }
        }
        found
    }

    /// Puts `text` into the set. Returns whether the set did not hold it before.
    pub fn insert(&mut self, text: String) -> (fresh: bool)
        ensures
            final(self)@ == old(self)@.insert(text@),
            fresh == !old(self)@.contains(text@),
            fresh ==> final(self).texts().len() == old(self).texts().len() + 1,
            !fresh ==> final(self).texts() == old(self).texts(),
            strictly_increasing(final(self).texts()),
    {
        let (at, found) = self.position(text.as_str());
        let ghost before = self.texts();
        proof {
            use_type_invariant(&*self);
            lemma_text_less_irreflexive(text@);
        }
        if found {
            return false;
        }
        proof {
            let after = strings_view(self.items@.insert(at as int, text));
            assert(after =~= before.insert(at as int, text@));
            assert(after.to_set() =~= before.to_set().insert(text@)) by {
                assert forall|t: Seq<char>| after.contains(t) <==> (before.contains(t) || t
                    == text@) by {
                    if before.contains(t) {
                        let i = choose|i: int| 0 <= i < before.len() && before[i] == t;
                        if i < at {
                            assert(after[i] == t);
                        } else {
                            assert(after[i + 1] == t);
                        }
                    }
                    if t == text@ {
                        assert(after[at as int] == t);
                    }
                }
            }
        }
        let mut items = self.take_items();
        items.insert(at, text);
        *self = TextSet { items };
        true
    }

    /// Takes `text` out of the set. Returns whether the set held it.
    pub fn remove(&mut self, text: &str) -> (found: bool)
        ensures
            final(self)@ == old(self)@.remove(text@),
            found == old(self)@.contains(text@),
            found ==> final(self).texts().len() == old(self).texts().len() - 1,
            !found ==> final(self).texts() == old(self).texts(),
            strictly_increasing(final(self).texts()),
    {
        let (at, found) = self.position(text);
        let ghost before = self.texts();
        proof {
            use_type_invariant(&*self);
            lemma_text_less_irreflexive(text@);
        }
        if !found {
            return false;
        }
        proof {
            let after = strings_view(self.items@.remove(at as int));
            assert(after =~= before.remove(at as int));
            assert(after.to_set() =~= before.to_set().remove(text@)) by {
                assert forall|t: Seq<char>| after.contains(t) <==> (before.contains(t) && t
                    != text@) by {
                    if before.contains(t) && t != text@ {
                        let i = choose|i: int| 0 <= i < before.len() && before[i] == t;
                        if i < at {
                            assert(after[i] == t);
                        } else {
                            assert(after[i - 1] == t);
                        }
                    }
                }
            }
        }
        let mut items = self.take_items();
        items.remove(at);
        *self = TextSet { items };
        true
    }

    /// Empties the set.
    pub fn clear(&mut self)
        ensures
            final(self)@ == Set::<Seq<char>>::empty(),
            final(self).texts() == Seq::<Seq<char>>::empty(),
            strictly_increasing(final(self).texts()),
    {
        *self = TextSet::new();
    }
}

} // verus!
