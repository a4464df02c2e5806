//! Cutting a line into fields and joining names into a line.

use crate::scan::{first_index, lemma_first_index, lemma_first_index_absent, lemma_first_index_at};
use vstd::prelude::*;
use vstd::string::{StrSliceExecFns, StringExecFns};

verus! {

/// The fields of `s` between occurrences of `sep`. There is always at least
/// one field; two separators in a row, or one at either end, give an empty
/// field.
pub open spec fn split(s: Seq<char>, sep: char) -> Seq<Seq<char>>
    decreases s.len(),
{
    let i = first_index(s, sep);
    if 0 <= i < s.len() {
        seq![s.subrange(0, i)] + split(s.subrange(i + 1, s.len() as int), sep)
    } else {
        seq![s]
    }
}

/// The texts of a vector of strings.
pub open spec fn texts(v: Seq<String>) -> Seq<Seq<char>> {
    v.map_values(|s: String| s@)
}

/// The parts in order, with `sep` between each two neighbours.
pub open spec fn join(parts: Seq<Seq<char>>, sep: Seq<char>) -> Seq<char>
    decreases parts.len(),
{
    if parts.len() == 0 {
        Seq::empty()
    } else if parts.len() == 1 {
        parts[0]
    } else {
        join(parts.drop_last(), sep) + sep + parts.last()
    }
}

/// Joining a first part and the rest: the first part, the separator, and
/// the rest joined.
pub proof fn lemma_join_front(parts: Seq<Seq<char>>, sep: Seq<char>)
    requires
        parts.len() >= 2,
    ensures
        join(parts, sep) == parts[0] + sep + join(parts.drop_first(), sep),
    decreases parts.len(),
{
    let rest = parts.drop_first();
    let front = parts.drop_last();
    if parts.len() == 2 {
        assert(join(front, sep) == front[0]);
        assert(join(rest, sep) == rest[0]);
    } else {
        lemma_join_front(front, sep);
        assert(front.drop_first() =~= rest.drop_last());
        assert(rest.last() == parts.last());
        let middle = join(rest.drop_last(), sep);
        assert(join(front, sep) == parts[0] + sep + middle);
        assert(join(rest, sep) == middle + sep + parts.last());
        assert((parts[0] + sep + middle) + sep + parts.last() =~= parts[0] + sep + (middle + sep
            + parts.last()));
    }
}

/// What a split is: there is at least one field, no field holds the
/// separator, and the fields joined by the separator give the text back.
pub proof fn lemma_split_join(s: Seq<char>, sep: char)
    ensures
        split(s, sep).len() >= 1,
        forall|k: int|
            0 <= k < split(s, sep).len() ==> !(#[trigger] split(s, sep)[k]).contains(sep),
        join(split(s, sep), seq![sep]) == s,
    decreases s.len(),
{
    let i = first_index(s, sep);
    lemma_first_index(s, sep);
    if 0 <= i < s.len() {
        let rest = s.subrange(i + 1, s.len() as int);
        lemma_split_join(rest, sep);
        let head = s.subrange(0, i);
        let all = split(s, sep);
        assert(all[0] == head);
        assert(all.drop_first() =~= split(rest, sep));
        assert forall|k: int| 0 <= k < all.len() implies !(#[trigger] all[k]).contains(sep) by {
            if k == 0 {
                if head.contains(sep) {
                    let j = choose|j: int| 0 <= j < head.len() && head[j] == sep;
                    assert(s[j] == sep);
                }
            } else {
                assert(all[k] == split(rest, sep)[k - 1]);
            }
        }
        lemma_join_front(all, seq![sep]);
        assert(head + seq![sep] + rest =~= s);
    }
}

/// Cuts `s` at every `sep`.
pub fn split_fields(s: &str, sep: char) -> (fields: Vec<String>)
    ensures
        texts(fields@) == split(s@, sep),
{
    let n = s.unicode_len();
    let mut fields: Vec<String> = Vec::new();
    let mut start: usize = 0;
    let mut i: usize = 0;
    assert(s@.subrange(0, n as int) =~= s@);
    assert(texts(fields@) + split(s@, sep) =~= split(s@, sep));
    while i < n
        invariant
            n == s@.len(),
            0 <= start <= i <= n,
            forall|j: int| start <= j < i ==> s@[j] != sep,
            texts(fields@) + split(s@.subrange(start as int, n as int), sep) == split(s@, sep),
        decreases n - i,
    {
        let c = s.get_char(i);
        if c == sep {
            let piece = s.substring_char(start, i);
            let ghost before = texts(fields@);
            fields.push(String::from_str(piece));
            proof {
                let t = s@.subrange(start as int, n as int);
                lemma_first_index_at(t, sep, i - start);
                assert(t.subrange(0, i - start) =~= s@.subrange(start as int, i as int));
                assert(t.subrange(i - start + 1, t.len() as int) =~= s@.subrange(i + 1, n as int));
                assert(texts(fields@) =~= before.push(piece@));
                assert(before.push(piece@) + split(s@.subrange(i + 1, n as int), sep) =~= before
                    + split(t, sep));
            }
            start = i + 1;
        }
        i += 1;
    }
    let piece = s.substring_char(start, n);
    let ghost before = texts(fields@);
    fields.push(String::from_str(piece));
    proof {
        let t = s@.subrange(start as int, n as int);
        lemma_first_index_absent(t, sep);
        assert(texts(fields@) =~= before.push(piece@));
        assert(before.push(piece@) =~= before + split(t, sep));
    }
    fields
}

} // verus!
