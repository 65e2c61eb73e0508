//! The vocabulary of a text: its distinct characters in code-point order.
use vstd::prelude::*;

verus! {

/// Characters are ordered by their Unicode code point.
pub open spec fn char_lt(a: char, b: char) -> bool {
    a < b
}

/// Every character comes strictly before the next one: sorted, with no repeats.
pub open spec fn strictly_increasing(v: Seq<char>) -> bool {
    forall|i: int, j: int| 0 <= i < j < v.len() ==> char_lt(#[trigger] v[i], #[trigger] v[j])
}

/// `v` lists each character of `text` exactly once, in increasing order.
pub open spec fn is_vocabulary_of(v: Seq<char>, text: Seq<char>) -> bool {
    &&& strictly_increasing(v)
    &&& v.to_set() == text.to_set()
}

/// The sorted list of the distinct characters of `text`
/// (it exists and is unique: see `lemma_vocabulary_exists` and `lemma_sorted_sets_equal`).
pub open spec fn vocabulary(text: Seq<char>) -> Seq<char> {
    choose|v: Seq<char>| is_vocabulary_of(v, text)
}

/// A strictly increasing sequence of characters has at most one entry per code point,
/// so its length fits any index type.
pub proof fn lemma_increasing_len_bound(v: Seq<char>)
    requires
        strictly_increasing(v),
    ensures
        v.len() <= 0x110000,
{
    if v.len() > 0 {
        lemma_increasing_rank(v, v.len() - 1);
        lemma_char_range(v[v.len() - 1]);
    }
}

/// Code points lie between 0 and 0x10FFFF.
proof fn lemma_char_range(c: char)
    ensures
        0 <= (c as int) <= 0x10FFFF,
{
}

/// The `i`-th character of a strictly increasing sequence has code point at least `i`.
proof fn lemma_increasing_rank(v: Seq<char>, i: int)
    requires
        strictly_increasing(v),
        0 <= i < v.len(),
    ensures
        (v[i] as int) >= i,
    decreases i,
{
    lemma_char_range(v[i]);
    if i > 0 {
        lemma_increasing_rank(v, i - 1);
        assert(v[i - 1] < v[i]);
        assert((v[i - 1] as int) < (v[i] as int));
    }
}

/// Two strictly increasing sequences with the same elements are equal.
pub proof fn lemma_sorted_sets_equal(a: Seq<char>, b: Seq<char>)
    requires
        strictly_increasing(a),
        strictly_increasing(b),
        a.to_set() == b.to_set(),
    ensures
        a == b,
    decreases a.len(),
{
    if a.len() == 0 {
        if b.len() > 0 {
            assert(b.to_set().contains(b[0]));
            assert(a.to_set().contains(b[0]));
        }
        assert(a =~= b);
    } else {
        if b.len() == 0 {
            assert(a.to_set().contains(a[0]));
            assert(b.to_set().contains(a[0]));
        }
        assert(b.to_set().contains(a[0]));
        assert(a.to_set().contains(b[0]));
        let ja = choose|j: int| 0 <= j < b.len() && b[j] == a[0];
        let jb = choose|j: int| 0 <= j < a.len() && a[j] == b[0];
        if ja > 0 {
            assert(char_lt(b[0], b[ja]));
        }
        if jb > 0 {
            assert(char_lt(a[0], a[jb]));
        }
        assert(a[0] == b[0]);
        let a1 = a.drop_first();
        let b1 = b.drop_first();
        assert forall|x: char| a1.to_set().contains(x) implies b1.to_set().contains(x) by {
            let i = choose|i: int| 0 <= i < a1.len() && a1[i] == x;
            assert(a[i + 1] == x);
            assert(char_lt(a[0], a[i + 1]));
            assert(a.to_set().contains(x));
            assert(b.to_set().contains(x));
            let j = choose|j: int| 0 <= j < b.len() && b[j] == x;
            assert(j != 0);
            assert(b1[j - 1] == x);
        }
        assert forall|x: char| b1.to_set().contains(x) implies a1.to_set().contains(x) by {
            let i = choose|i: int| 0 <= i < b1.len() && b1[i] == x;
            assert(b[i + 1] == x);
            assert(char_lt(b[0], b[i + 1]));
            assert(b.to_set().contains(x));
            assert(a.to_set().contains(x));
            let j = choose|j: int| 0 <= j < a.len() && a[j] == x;
            assert(j != 0);
            assert(a1[j - 1] == x);
        }
        assert(a1.to_set() =~= b1.to_set());
        lemma_sorted_sets_equal(a1, b1);
        assert forall|i: int| 0 <= i < a.len() implies a[i] == b[i] by {
            if i > 0 {
                assert(a1[i - 1] == b1[i - 1]);
            }
        }
        assert(a =~= b);
    }
}

/// Inserting `c` at a position that separates the smaller from the larger
/// characters keeps a sequence strictly increasing and adds `c` to its elements.
pub proof fn lemma_insert_sorted(v: Seq<char>, p: int, c: char)
    requires
        strictly_increasing(v),
        0 <= p <= v.len(),
        forall|i: int| 0 <= i < p ==> char_lt(#[trigger] v[i], c),
        forall|i: int| p <= i < v.len() ==> char_lt(c, #[trigger] v[i]),
    ensures
        strictly_increasing(v.insert(p, c)),
        v.insert(p, c).to_set() == v.to_set().insert(c),
{
    let w = v.insert(p, c);
    assert forall|i: int, j: int| 0 <= i < j < w.len() implies char_lt(#[trigger] w[i], #[trigger] w[j]) by {
        if j < p {
        } else if j == p {
        } else if i < p {
            assert(char_lt(v[i], c));
            assert(char_lt(c, v[j - 1]));
        } else if i == p {
        } else {
        }
    }
    assert forall|x: char| w.to_set().contains(x) <==> v.to_set().insert(c).contains(x) by {
        if w.to_set().contains(x) {
            let i = choose|i: int| 0 <= i < w.len() && w[i] == x;
            if i < p {
                assert(v[i] == x);
            } else if i > p {
                assert(v[i - 1] == x);
            }
        }
        if v.to_set().contains(x) {
            let i = choose|i: int| 0 <= i < v.len() && v[i] == x;
            if i < p {
                assert(w[i] == x);
            } else {
                assert(w[i + 1] == x);
            }
        }
        if x == c {
            assert(w[p] == c);
        }
    }
    assert(w.to_set() =~= v.to_set().insert(c));
}

/// Where `c` goes in a strictly increasing sequence: after every smaller
/// character, before every character that is not smaller.
proof fn lemma_insertion_point(v: Seq<char>, c: char) -> (p: int)
    requires
        strictly_increasing(v),
    ensures
        0 <= p <= v.len(),
        forall|i: int| 0 <= i < p ==> char_lt(#[trigger] v[i], c),
        forall|i: int| p <= i < v.len() ==> !char_lt(#[trigger] v[i], c),
    decreases v.len(),
{
    if v.len() == 0 {
        0
    } else if char_lt(v.last(), c) {
        v.len() as int
    } else {
        let q = lemma_insertion_point(v.drop_last(), c);
        assert forall|i: int| q <= i < v.len() implies !char_lt(#[trigger] v[i], c) by {
            if i < v.len() - 1 {
                assert(v.drop_last()[i] == v[i]);
            }
        }
        assert forall|i: int| 0 <= i < q implies char_lt(#[trigger] v[i], c) by {
            assert(v.drop_last()[i] == v[i]);
        }
        q
    }
}

/// Adding one more character of text to its sorted character set.
proof fn lemma_vocabulary_step(v: Seq<char>, text: Seq<char>, c: char) -> (w: Seq<char>)
    requires
        is_vocabulary_of(v, text),
    ensures
        is_vocabulary_of(w, text.push(c)),
{
    lemma_vocabulary_step_set(v, text, c);
    if v.to_set().contains(c) {
        assert(v.to_set().insert(c) =~= v.to_set());
        v
    } else {
        let p = lemma_insertion_point(v, c);
        assert forall|i: int| p <= i < v.len() implies char_lt(c, #[trigger] v[i]) by {
            assert(v[i] != c) by {
                if v[i] == c {
                    assert(v.to_set().contains(c));
                }
            }
        }
        lemma_insert_sorted(v, p, c);
        v.insert(p, c)
    }
}

/// Every text has a sorted list of its distinct characters.
pub proof fn lemma_vocabulary_exists(text: Seq<char>)
    ensures
        is_vocabulary_of(vocabulary(text), text),
{
    let w = vocabulary_witness(text);
    assert(is_vocabulary_of(w, text));
}

proof fn vocabulary_witness(text: Seq<char>) -> (v: Seq<char>)
    ensures
        is_vocabulary_of(v, text),
    decreases text.len(),
{
    if text.len() == 0 {
        let v = Seq::<char>::empty();
        assert(v.to_set() =~= text.to_set());
        v
    } else {
        let prev = vocabulary_witness(text.drop_last());
        let w = lemma_vocabulary_step(prev, text.drop_last(), text.last());
        assert(text.drop_last().push(text.last()) =~= text);
        w
    }
}

/// The vocabulary of a text is the one strictly increasing sequence with its characters.
pub proof fn lemma_vocabulary_unique(v: Seq<char>, text: Seq<char>)
    requires
        is_vocabulary_of(v, text),
    ensures
        v == vocabulary(text),
{
    lemma_vocabulary_exists(text);
    lemma_sorted_sets_equal(v, vocabulary(text));
}

/// Position of the first character of `v` that is not smaller than `c`.
fn insertion_point(v: &Vec<char>, c: char) -> (p: usize)
    requires
        strictly_increasing(v@),
    ensures
        p <= v.len(),
        forall|i: int| 0 <= i < p ==> char_lt(#[trigger] v@[i], c),
        forall|i: int| p <= i < v.len() ==> !char_lt(#[trigger] v@[i], c),
{
    let mut lo: usize = 0;
    let mut hi: usize = v.len();
    while lo < hi
        invariant
            0 <= lo <= hi <= v.len(),
            strictly_increasing(v@),
            forall|i: int| 0 <= i < lo ==> char_lt(#[trigger] v@[i], c),
            forall|i: int| hi <= i < v.len() ==> !char_lt(#[trigger] v@[i], c),
        decreases hi - lo,
    {
        let mid = lo + (hi - lo) / 2;
        if v[mid] < c {
            assert forall|i: int| 0 <= i <= mid implies char_lt(#[trigger] v@[i], c) by {
                if i < mid {
                    assert(char_lt(v@[i], v@[mid as int]));
                }
            }
            lo = mid + 1;
        } else {
            assert forall|i: int| mid <= i < v.len() implies !char_lt(#[trigger] v@[i], c) by {
                if i > mid {
                    assert(char_lt(v@[mid as int], v@[i]));
                }
            }
            hi = mid;
        }
    }
    lo
}

/// The distinct characters of `text`, sorted by code point.
pub fn build_vocabulary(text: &str) -> (v: Vec<char>)
    ensures
        v@ == vocabulary(text@),
{
    let mut v: Vec<char> = Vec::new();
    proof {
        assert(v@.to_set() =~= text@.take(0).to_set());
    }
    for c in it: text.chars()
        invariant
            it.seq() == text@,
            strictly_increasing(v@),
            v@.to_set() == text@.take(it.index() as int).to_set(),
    {
        let ghost k = it.index() as int;
        let ghost old_v = v@;
        proof {
            assert(text@.take(k + 1) =~= text@.take(k).push(c));
        }
        let p = insertion_point(&v, c);
        if p < v.len() && v[p] == c {
            proof {
                assert(old_v.to_set().contains(c));
                assert(old_v.to_set().insert(c) =~= old_v.to_set());
                lemma_vocabulary_step_set(old_v, text@.take(k), c);
            }
        } else {
            proof {
                assert forall|i: int| p <= i < old_v.len() implies char_lt(c, #[trigger] old_v[i]) by {
                    assert(!char_lt(old_v[i], c));
                    if i > p {
                        assert(char_lt(old_v[p as int], old_v[i]));
                    }
                }
                lemma_insert_sorted(old_v, p as int, c);
                lemma_vocabulary_step_set(old_v, text@.take(k), c);
            }
            v.insert(p, c);
        }
    }
    proof {
        assert(text@.take(text@.len() as int) =~= text@);
        lemma_vocabulary_unique(v@, text@);
    }
    v
}

/// The characters of `text.push(c)` are those of `text` and `c`.
proof fn lemma_vocabulary_step_set(v: Seq<char>, text: Seq<char>, c: char)
    requires
        v.to_set() == text.to_set(),
    ensures
        text.push(c).to_set() == v.to_set().insert(c),
{
    assert forall|x: char| text.push(c).to_set().contains(x) implies text.to_set().insert(c).contains(x) by {
        let i = choose|i: int| 0 <= i < text.push(c).len() && text.push(c)[i] == x;
        if i < text.len() {
            assert(text[i] == x);
        }
    }
    assert forall|x: char| text.to_set().insert(c).contains(x) implies text.push(c).to_set().contains(x) by {
        if x == c {
            assert(text.push(c)[text.len() as int] == c);
        } else {
            let i = choose|i: int| 0 <= i < text.len() && text[i] == x;
            assert(text.push(c)[i] == x);
        }
    }
    assert(text.push(c).to_set() =~= v.to_set().insert(c));
}

} // verus!
