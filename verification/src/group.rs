//! Grouping of keyed files: files that share a key (a size and a digest)
//! gathered together, groups in key order, files in the order they were keyed.
use vstd::prelude::*;
use vstd::utf8::{encode_utf8, encode_utf8_decode_utf8};
use crate::model::IndexedFile;
use crate::path::{
    bytes_lt, compare_bytes, lemma_bytes_lt_asymmetric, lemma_bytes_lt_irreflexive,
    lemma_bytes_lt_total, lemma_bytes_lt_transitive, Precedence,
};
use crate::sort::{Ranked, into_deque, is_ranked, rank_sort};

verus! {

/// A file with the key under which it is grouped: a size and a digest (the
/// size is 0 where files are grouped by digest alone), and its place among
/// the files keyed so far.
#[derive(Debug, Clone)]
pub struct KeyedFile {
    pub size: u64,
    pub digest: String,
    pub position: usize,
    pub file: IndexedFile,
}

/// Two files have the same key.
pub open spec fn same_key(a: KeyedFile, b: KeyedFile) -> bool {
    a.size == b.size && a.digest@ == b.digest@
}

/// Text order: the order of the UTF-8 encodings.
pub open spec fn text_lt(a: Seq<char>, b: Seq<char>) -> bool {
    bytes_lt(encode_utf8(a), encode_utf8(b))
}

/// Key order: by size, then by digest.
pub open spec fn key_lt(a: KeyedFile, b: KeyedFile) -> bool {
    a.size < b.size || (a.size == b.size && text_lt(a.digest@, b.digest@))
}

proof fn lemma_text_total(a: Seq<char>, b: Seq<char>)
    ensures
        text_lt(a, b) || text_lt(b, a) || a == b,
        !text_lt(a, a),
        text_lt(a, b) ==> !text_lt(b, a),
{
    lemma_bytes_lt_total(encode_utf8(a), encode_utf8(b));
    lemma_bytes_lt_irreflexive(encode_utf8(a));
    if text_lt(a, b) {
        lemma_bytes_lt_asymmetric(encode_utf8(a), encode_utf8(b));
    }
    if encode_utf8(a) == encode_utf8(b) {
        encode_utf8_decode_utf8(a);
        encode_utf8_decode_utf8(b);
    }
}

proof fn lemma_key_order(a: KeyedFile, b: KeyedFile)
    ensures
        key_lt(a, b) || key_lt(b, a) || same_key(a, b),
        !key_lt(a, a),
        key_lt(a, b) ==> !key_lt(b, a),
        same_key(a, b) ==> !key_lt(a, b),
{
    lemma_text_total(a.digest@, b.digest@);
    lemma_text_total(a.digest@, a.digest@);
}

proof fn lemma_key_transitive(a: KeyedFile, b: KeyedFile, c: KeyedFile)
    requires
        key_lt(a, b),
        key_lt(b, c),
    ensures
        key_lt(a, c),
{
    if a.size == b.size && b.size == c.size {
        lemma_bytes_lt_transitive(encode_utf8(a.digest@), encode_utf8(b.digest@), encode_utf8(c.digest@));
    }
}

#[verifier::opaque]
spec fn keyed_before(a: KeyedFile, b: KeyedFile) -> bool {
    key_lt(a, b) || (same_key(a, b) && a.position < b.position)
}

impl Ranked for KeyedFile {
    closed spec fn ranks_before(&self, other: &Self) -> bool {
        keyed_before(*self, *other)
    }

    proof fn lemma_ranks_before_irreflexive(a: &Self) {
        reveal(keyed_before);
        lemma_key_order(*a, *a);
    }

    proof fn lemma_ranks_before_transitive(a: &Self, b: &Self, c: &Self) {
        reveal(keyed_before);
        lemma_key_order(*a, *b);
        lemma_key_order(*b, *c);
        lemma_key_order(*a, *c);
        if key_lt(*a, *b) && key_lt(*b, *c) {
            lemma_key_transitive(*a, *b, *c);
        }
    }

    proof fn lemma_not_ranks_before_transitive(a: &Self, b: &Self, c: &Self) {
        reveal(keyed_before);
        lemma_key_order(*a, *b);
        lemma_key_order(*b, *c);
        lemma_key_order(*a, *c);
        if key_lt(*c, *a) {
            if key_lt(*a, *b) {
                lemma_key_transitive(*c, *a, *b);
                lemma_key_order(*c, *b);
            }
            if key_lt(*b, *c) {
                lemma_key_transitive(*b, *c, *a);
                lemma_key_order(*b, *a);
            }
        }
    }

    fn precedes(&self, other: &Self) -> (r: bool) {
        reveal(keyed_before);
        proof {
            lemma_key_order(*self, *other);
        }
        if self.size < other.size {
            return true;
        }
        if self.size > other.size {
            return false;
        }
        let x = self.digest.as_str().as_bytes();
        let y = other.digest.as_str().as_bytes();
        proof {
            encode_utf8_decode_utf8(self.digest@);
            encode_utf8_decode_utf8(other.digest@);
        }
        match compare_bytes(x, y) {
            Precedence::Before => true,
            Precedence::Same => self.position < other.position,
            Precedence::After => false,
        }
    }
}

/// Whether two files have the same key.
pub fn keys_equal(a: &KeyedFile, b: &KeyedFile) -> (r: bool)
    ensures
        r == same_key(*a, *b),
{
    a.size == b.size && a.digest == b.digest
}

/// `x` stands in one of the groups.
pub open spec fn in_groups(groups: Seq<Vec<KeyedFile>>, x: KeyedFile) -> bool {
    exists|g: int, j: int| 0 <= g < groups.len() && 0 <= j < groups[g]@.len() && #[trigger] groups[g]@[j] == x
}

/// `groups` gathers `items` by key: each group non-empty and of one key, in
/// the order of the items, groups in strictly ascending key order, and every
/// item in exactly the group of its key.
pub open spec fn groups_items_by_key(items: Seq<KeyedFile>, groups: Seq<Vec<KeyedFile>>) -> bool {
    &&& forall|g: int| #![trigger groups[g]] 0 <= g < groups.len() ==> groups[g]@.len() >= 1
    &&& forall|g: int, j: int|
        #![trigger groups[g]@[j]]
        0 <= g < groups.len() && 0 <= j < groups[g]@.len() ==> {
            &&& same_key(groups[g]@[j], groups[g]@[0])
            &&& 0 <= groups[g]@[j].position < items.len()
            &&& items[groups[g]@[j].position as int] == groups[g]@[j]
        }
    &&& forall|g: int, a: int, b: int|
        #![trigger groups[g]@[a], groups[g]@[b]]
        0 <= g < groups.len() && 0 <= a < b < groups[g]@.len() ==> groups[g]@[a].position < groups[g]@[b].position
    &&& forall|g1: int, g2: int|
        #![trigger groups[g1], groups[g2]]
        0 <= g1 < g2 < groups.len() ==> key_lt(groups[g1]@[0], groups[g2]@[0])
    &&& forall|i: int| #![trigger items[i]] 0 <= i < items.len() ==> in_groups(groups, items[i])
}

/// The number of files in all the groups.
pub open spec fn total_len(groups: Seq<Vec<KeyedFile>>) -> nat
    decreases groups.len(),
{
    if groups.len() == 0 {
        0
    } else {
        total_len(groups.drop_last()) + groups.last()@.len()
    }
}

/// Items numbered by their place: each item's position is its index.
pub open spec fn numbered(items: Seq<KeyedFile>) -> bool {
    forall|i: int| #![trigger items[i]] 0 <= i < items.len() ==> items[i].position == i
}

/// Gathers files by key.
#[verifier::rlimit(40)]
pub fn group_by_key(items: Vec<KeyedFile>) -> (groups: Vec<Vec<KeyedFile>>)
    requires
        numbered(items@),
    ensures
        groups_items_by_key(items@, groups@),
        total_len(groups@) == items@.len(),
{
    let ghost orig = items@;
    let sorted = rank_sort(items);
    let ghost s = sorted@;
    proof {
        broadcast use vstd::seq_lib::group_to_multiset_ensures;
        assert(orig.no_duplicates()) by {
            assert forall|i: int, j: int| 0 <= i < orig.len() && 0 <= j < orig.len() && i != j
                implies orig[i] != orig[j] by {
                assert(orig[i].position == i && orig[j].position == j);
            }
        }
        orig.lemma_multiset_has_no_duplicates();
        s.lemma_multiset_has_no_duplicates_conv();
        assert forall|m: int| 0 <= m < s.len() implies orig.contains(#[trigger] s[m]) by {
            assert(s.contains(s[m]));
            assert(s.to_multiset().count(s[m]) > 0);
        }
        assert forall|i: int| 0 <= i < orig.len() implies s.contains(#[trigger] orig[i]) by {
            assert(orig.contains(orig[i]));
            assert(orig.to_multiset().count(orig[i]) > 0);
        }
    }
    let total = sorted.len();
    let mut sd = into_deque(sorted);
    let mut out: Vec<Vec<KeyedFile>> = Vec::new();
    let mut run: Vec<KeyedFile> = Vec::new();
    let ghost mut place: Seq<(int, int)> = Seq::empty();
    let mut k: usize = 0;
    while sd.len() > 0
        invariant
            s.len() == total,
            sd@ == s.subrange(k as int, s.len() as int),
            k <= s.len(),
            is_ranked(s),
            numbered(orig),
            s.no_duplicates(),
            forall|m: int| 0 <= m < s.len() ==> orig.contains(#[trigger] s[m]),
            place.len() == k,
            k == 0 <==> run@.len() == 0,
            k == 0 ==> out@.len() == 0,
            total_len(out@) + run@.len() == k,
            k > 0 ==> run@[run@.len() - 1] == s[k - 1],
            forall|j: int| #![trigger run@[j]] 0 <= j < run@.len() ==> same_key(run@[j], run@[0]),
            forall|a: int, b: int|
                #![trigger run@[a], run@[b]]
                0 <= a < b < run@.len() ==> run@[a].ranks_before(&run@[b]),
            forall|g: int| #![trigger out@[g]] 0 <= g < out@.len() ==> out@[g]@.len() >= 1,
            forall|g: int, j: int|
                #![trigger out@[g]@[j]]
                0 <= g < out@.len() && 0 <= j < out@[g]@.len() ==> same_key(out@[g]@[j], out@[g]@[0]),
            forall|g: int, a: int, b: int|
                #![trigger out@[g]@[a], out@[g]@[b]]
                0 <= g < out@.len() && 0 <= a < b < out@[g]@.len() ==> out@[g]@[a].ranks_before(&out@[g]@[b]),
            forall|g1: int, g2: int|
                #![trigger out@[g1], out@[g2]]
                0 <= g1 < g2 < out@.len() ==> key_lt(out@[g1]@[0], out@[g2]@[0]),
            run@.len() > 0 ==> forall|g: int| #![trigger out@[g]] 0 <= g < out@.len() ==> key_lt(out@[g]@[0], run@[0]),
            forall|g: int, j: int|
                #![trigger out@[g]@[j]]
                0 <= g < out@.len() && 0 <= j < out@[g]@.len() ==> orig.contains(out@[g]@[j]),
            forall|j: int| #![trigger run@[j]] 0 <= j < run@.len() ==> orig.contains(run@[j]),
            forall|m: int|
                #![trigger place[m]]
                0 <= m < k ==> {
                    let (g, j) = place[m];
                    ||| (0 <= g < out@.len() && 0 <= j < out@[g]@.len() && out@[g]@[j] == s[m])
                    ||| (g == out@.len() && 0 <= j < run@.len() && run@[j] == s[m])
                },
        decreases s.len() - k,
    {
        let ghost o0 = out@;
        let ghost r0 = run@;
        let cur = sd.pop_front().unwrap();
        assert(cur == s[k as int]);
        assert(sd@ =~= s.subrange(k + 1, s.len() as int));
        let n_run = run.len();
        let continues = n_run > 0 && keys_equal(&run[n_run - 1], &cur);
        if continues {
            proof {
                reveal(keyed_before);
                assert(!s[k as int].ranks_before(&s[k - 1]));
                lemma_key_order(s[k - 1], cur);
                assert(s[k - 1] != s[k as int]);
                assert(orig.contains(s[k - 1]) && orig.contains(s[k as int]));
                let i1 = choose|i: int| 0 <= i < orig.len() && orig[i] == s[k - 1];
                let i2 = choose|i: int| 0 <= i < orig.len() && orig[i] == s[k as int];
                assert(orig[i1].position == i1 && orig[i2].position == i2);
                assert(s[k - 1].ranks_before(&cur));
                assert forall|a: int| #![trigger r0[a]] 0 <= a < r0.len() implies r0[a].ranks_before(&cur) by {
                    if a < r0.len() - 1 {
                        assert(r0[a].ranks_before(&r0[r0.len() - 1]));
                        KeyedFile::lemma_ranks_before_transitive(&r0[a], &r0[r0.len() - 1], &cur);
                    }
                }
            }
            run.push(cur);
            proof {
                assert(run@[0] == r0[0]);
                assert(s.contains(s[k as int]));
                place = place.push((o0.len() as int, r0.len() as int));
                assert forall|a: int, b: int|
                    #![trigger run@[a], run@[b]]
                    0 <= a < b < run@.len() implies run@[a].ranks_before(&run@[b]) by {
                    assert(run@[a] == r0[a]);
                    if b < r0.len() {
                        assert(run@[b] == r0[b]);
                    }
                }
                assert forall|j: int| #![trigger run@[j]] 0 <= j < run@.len() implies same_key(run@[j], run@[0]) by {
                    if j < r0.len() {
                        assert(run@[j] == r0[j]);
                    }
                }
                assert forall|j: int| #![trigger run@[j]] 0 <= j < run@.len() implies orig.contains(run@[j]) by {
                    if j < r0.len() {
                        assert(run@[j] == r0[j]);
                    }
                }
                assert forall|m: int|
                    #![trigger place[m]]
                    0 <= m < k + 1 implies {
                        let (g, j) = place[m];
                        ||| (0 <= g < out@.len() && 0 <= j < out@[g]@.len() && out@[g]@[j] == s[m])
                        ||| (g == out@.len() && 0 <= j < run@.len() && run@[j] == s[m])
                    } by {
                    if m < k {
                        let (g, j) = place[m];
                        if g == out@.len() {
                            assert(run@[j] == r0[j]);
                        }
                    }
                }
            }
        } else {
            let mut finished: Vec<KeyedFile> = Vec::new();
            std::mem::swap(&mut finished, &mut run);
            if n_run > 0 {
                proof {
                    reveal(keyed_before);
                    assert(!s[k as int].ranks_before(&s[k - 1]));
                    lemma_key_order(s[k - 1], cur);
                    lemma_key_order(r0[0], s[k - 1]);
                }
                out.push(finished);
                proof {
                    assert(out@.drop_last() =~= o0);
                    assert forall|g: int| #![trigger out@[g]] 0 <= g < out@.len() implies key_lt(out@[g]@[0], cur) by {
                        if g < o0.len() {
                            assert(out@[g] == o0[g]);
                            lemma_key_transitive(out@[g]@[0], r0[0], cur);
                        } else {
                            assert(out@[g]@ == r0);
                        }
                    }
                    assert forall|g1: int, g2: int|
                        #![trigger out@[g1], out@[g2]]
                        0 <= g1 < g2 < out@.len() implies key_lt(out@[g1]@[0], out@[g2]@[0]) by {
                        assert(out@[g1] == o0[g1]);
                        if g2 < o0.len() {
                            assert(out@[g2] == o0[g2]);
                        }
                    }
                    assert forall|g: int, j: int|
                        #![trigger out@[g]@[j]]
                        0 <= g < out@.len() && 0 <= j < out@[g]@.len() implies same_key(out@[g]@[j], out@[g]@[0]) by {
                        if g < o0.len() {
                            assert(out@[g] == o0[g]);
                        }
                    }
                    assert forall|g: int, a: int, b: int|
                        #![trigger out@[g]@[a], out@[g]@[b]]
                        0 <= g < out@.len() && 0 <= a < b < out@[g]@.len() implies out@[g]@[a].ranks_before(&out@[g]@[b]) by {
                        if g < o0.len() {
                            assert(out@[g] == o0[g]);
                        }
                    }
                    assert forall|g: int, j: int|
                        #![trigger out@[g]@[j]]
                        0 <= g < out@.len() && 0 <= j < out@[g]@.len() implies orig.contains(out@[g]@[j]) by {
                        if g < o0.len() {
                            assert(out@[g] == o0[g]);
                        }
                    }
                    assert forall|g: int| #![trigger out@[g]] 0 <= g < out@.len() implies out@[g]@.len() >= 1 by {
                        if g < o0.len() {
                            assert(out@[g] == o0[g]);
                        }
                    }
                }
            }
            run.push(cur);
            proof {
                assert(run@[0] == cur);
                assert(s.contains(s[k as int]));
                place = place.push((out@.len() as int, 0int));
                assert forall|m: int|
                    #![trigger place[m]]
                    0 <= m < k + 1 implies {
                        let (g, j) = place[m];
                        ||| (0 <= g < out@.len() && 0 <= j < out@[g]@.len() && out@[g]@[j] == s[m])
                        ||| (g == out@.len() && 0 <= j < run@.len() && run@[j] == s[m])
                    } by {
                    if m < k {
                        let (g, j) = place[m];
                        if g < o0.len() {
                            assert(out@[g] == o0[g]);
                        } else {
                            assert(out@[g]@ == r0);
                        }
                    }
                }
            }
        }
        k = k + 1;
    }
    let ghost o1 = out@;
    let ghost r1 = run@;
    if run.len() > 0 {
        out.push(run);
        proof {
            assert(out@.drop_last() =~= o1);
            assert forall|g: int| #![trigger out@[g]] 0 <= g < out@.len() implies out@[g]@.len() >= 1 by {
                if g < o1.len() { assert(out@[g] == o1[g]); }
            }
            assert forall|g: int, j: int|
                #![trigger out@[g]@[j]]
                0 <= g < out@.len() && 0 <= j < out@[g]@.len() implies same_key(out@[g]@[j], out@[g]@[0]) by {
                if g < o1.len() { assert(out@[g] == o1[g]); }
            }
            assert forall|g: int, a: int, b: int|
                #![trigger out@[g]@[a], out@[g]@[b]]
                0 <= g < out@.len() && 0 <= a < b < out@[g]@.len() implies out@[g]@[a].ranks_before(&out@[g]@[b]) by {
                if g < o1.len() { assert(out@[g] == o1[g]); }
            }
            assert forall|g1: int, g2: int|
                #![trigger out@[g1], out@[g2]]
                0 <= g1 < g2 < out@.len() implies key_lt(out@[g1]@[0], out@[g2]@[0]) by {
                assert(out@[g1] == o1[g1]);
                if g2 < o1.len() { assert(out@[g2] == o1[g2]); }
            }
            assert forall|g: int, j: int|
                #![trigger out@[g]@[j]]
                0 <= g < out@.len() && 0 <= j < out@[g]@.len() implies orig.contains(out@[g]@[j]) by {
                if g < o1.len() { assert(out@[g] == o1[g]); }
            }
            assert forall|m: int|
                #![trigger place[m]]
                0 <= m < k implies {
                    let (g, j) = place[m];
                    0 <= g < out@.len() && 0 <= j < out@[g]@.len() && out@[g]@[j] == s[m]
                } by {
                let (g, j) = place[m];
                if g < o1.len() { assert(out@[g] == o1[g]); }
            }
        }
    }
    proof {
        lemma_grouping_complete(orig, s, out@, place);
    }
    out
}

proof fn lemma_grouping_complete(
    orig: Seq<KeyedFile>,
    s: Seq<KeyedFile>,
    out: Seq<Vec<KeyedFile>>,
    place: Seq<(int, int)>,
)
    requires
        numbered(orig),
        place.len() == s.len(),
        forall|i: int| 0 <= i < orig.len() ==> s.contains(#[trigger] orig[i]),
        forall|g: int| #![trigger out[g]] 0 <= g < out.len() ==> out[g]@.len() >= 1,
        forall|g: int, j: int|
            #![trigger out[g]@[j]]
            0 <= g < out.len() && 0 <= j < out[g]@.len() ==> same_key(out[g]@[j], out[g]@[0]),
        forall|g: int, a: int, b: int|
            #![trigger out[g]@[a], out[g]@[b]]
            0 <= g < out.len() && 0 <= a < b < out[g]@.len() ==> out[g]@[a].ranks_before(&out[g]@[b]),
        forall|g1: int, g2: int|
            #![trigger out[g1], out[g2]]
            0 <= g1 < g2 < out.len() ==> key_lt(out[g1]@[0], out[g2]@[0]),
        forall|g: int, j: int|
            #![trigger out[g]@[j]]
            0 <= g < out.len() && 0 <= j < out[g]@.len() ==> orig.contains(out[g]@[j]),
        forall|m: int|
            #![trigger place[m]]
            0 <= m < s.len() ==> {
                let (g, j) = place[m];
                0 <= g < out.len() && 0 <= j < out[g]@.len() && out[g]@[j] == s[m]
            },
    ensures
        groups_items_by_key(orig, out),
{
    reveal(keyed_before);
    assert forall|g: int, j: int|
        #![trigger out[g]@[j]]
        0 <= g < out.len() && 0 <= j < out[g]@.len() implies {
            &&& 0 <= out[g]@[j].position < orig.len()
            &&& orig[out[g]@[j].position as int] == out[g]@[j]
        } by {
        assert(orig.contains(out[g]@[j]));
        let i = choose|i: int| 0 <= i < orig.len() && orig[i] == out[g]@[j];
        assert(orig[i].position == i);
    }
    assert forall|g: int, a: int, b: int|
        #![trigger out[g]@[a], out[g]@[b]]
        0 <= g < out.len() && 0 <= a < b < out[g]@.len() implies out[g]@[a].position < out[g]@[b].position by {
        assert(out[g]@[a].ranks_before(&out[g]@[b]));
        assert(same_key(out[g]@[a], out[g]@[0]));
        assert(same_key(out[g]@[b], out[g]@[0]));
        lemma_key_order(out[g]@[a], out[g]@[b]);
    }
    assert forall|i: int| #![trigger orig[i]] 0 <= i < orig.len() implies in_groups(out, orig[i]) by {
        assert(s.contains(orig[i]));
        let m = choose|m: int| 0 <= m < s.len() && s[m] == orig[i];
        let (g, j) = place[m];
        assert(out[g]@[j] == orig[i]);
    }
}

/// Files in key order have different keys.
pub proof fn lemma_key_lt_differs(a: KeyedFile, b: KeyedFile)
    requires
        key_lt(a, b),
    ensures
        !same_key(a, b),
        !key_lt(b, a),
{
    lemma_key_order(a, b);
}

/// Of two keys, one comes first, or they are the same.
pub proof fn lemma_key_total(a: KeyedFile, b: KeyedFile)
    ensures
        key_lt(a, b) || key_lt(b, a) || same_key(a, b),
{
    lemma_key_order(a, b);
}

} // verus!
