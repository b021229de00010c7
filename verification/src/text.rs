//! Splitting character sequences on a separator character, with a spec-level
//! model (`split_on`) and a verified executable splitter (`split_str`).

use vstd::prelude::*;

verus! {

/// The sequence of fields obtained by cutting `s` at every occurrence of
/// `sep`. The separator itself appears in no field, and splitting always
/// yields at least one (possibly empty) field, as `str::split` does.
pub open spec fn split_on(s: Seq<char>, sep: char) -> Seq<Seq<char>>
    decreases s.len(),
{
    if s.len() == 0 {
        seq![Seq::<char>::empty()]
    } else if s[0] == sep {
        seq![Seq::<char>::empty()] + split_on(s.skip(1), sep)
    } else {
        let rest = split_on(s.skip(1), sep);
        seq![seq![s[0]] + rest[0]] + rest.skip(1)
    }
}

pub proof fn lemma_split_on_nonempty(s: Seq<char>, sep: char)
    ensures
        split_on(s, sep).len() >= 1,
    decreases s.len(),
{
    if s.len() == 0 {
    } else {
        lemma_split_on_nonempty(s.skip(1), sep);
    }
}

/// Cutting at the first separator: if `s[i]` is the first occurrence of `sep`
/// at or after `start`, the fields of the tail beginning at `start` are the
/// run before that separator followed by the fields of the tail after it.
pub proof fn lemma_split_on_at_sep(s: Seq<char>, sep: char, start: int, i: int)
    requires
        0 <= start <= i < s.len(),
        s[i] == sep,
        forall|k: int| start <= k < i ==> s[k] != sep,
    ensures
        split_on(s.skip(start), sep) == seq![s.subrange(start, i)] + split_on(
            s.skip(i + 1),
            sep,
        ),
    decreases i - start,
{
    let tail = s.skip(start);
    assert(tail.skip(1) =~= s.skip(start + 1));
    if start == i {
        assert(tail[0] == sep);
        assert(s.subrange(start, i) =~= Seq::<char>::empty());
        assert(split_on(tail, sep) =~= seq![s.subrange(start, i)] + split_on(s.skip(i + 1), sep));
    } else {
        assert(tail[0] == s[start]);
        assert(tail[0] != sep);
        lemma_split_on_at_sep(s, sep, start + 1, i);
        let rest = split_on(s.skip(start + 1), sep);
        let after = split_on(s.skip(i + 1), sep);
        assert(rest == seq![s.subrange(start + 1, i)] + after);
        assert(rest[0] == s.subrange(start + 1, i));
        assert(rest.skip(1) =~= after);
        assert(seq![s[start]] + s.subrange(start + 1, i) =~= s.subrange(start, i));
        assert(split_on(tail, sep) =~= seq![s.subrange(start, i)] + after);
    }
}

/// A tail that contains no separator is a single field.
pub proof fn lemma_split_on_no_sep(s: Seq<char>, sep: char, start: int)
    requires
        0 <= start <= s.len(),
        forall|k: int| start <= k < s.len() ==> s[k] != sep,
    ensures
        split_on(s.skip(start), sep) == seq![s.subrange(start, s.len() as int)],
    decreases s.len() - start,
{
    let tail = s.skip(start);
    if start == s.len() {
        assert(tail =~= Seq::<char>::empty());
        assert(s.subrange(start, s.len() as int) =~= Seq::<char>::empty());
        assert(split_on(tail, sep) =~= seq![s.subrange(start, s.len() as int)]);
    } else {
        assert(tail[0] == s[start]);
        assert(tail[0] != sep);
        assert(tail.skip(1) =~= s.skip(start + 1));
        lemma_split_on_no_sep(s, sep, start + 1);
        let rest = split_on(s.skip(start + 1), sep);
        assert(rest == seq![s.subrange(start + 1, s.len() as int)]);
        assert(rest[0] == s.subrange(start + 1, s.len() as int));
        assert(rest.skip(1) =~= Seq::<Seq<char>>::empty());
        assert(seq![s[start]] + s.subrange(start + 1, s.len() as int) =~= s.subrange(
            start,
            s.len() as int,
        ));
        assert(split_on(tail, sep) =~= seq![s.subrange(start, s.len() as int)]);
    }
}

/// `s` with every occurrence of `c` deleted.
pub open spec fn remove_char(s: Seq<char>, c: char) -> Seq<char>
    decreases s.len(),
{
    if s.len() == 0 {
        Seq::<char>::empty()
    } else if s[0] == c {
        remove_char(s.skip(1), c)
    } else {
        seq![s[0]] + remove_char(s.skip(1), c)
    }
}

/// Deleting up to the first occurrence of `c`: the run before it is kept.
pub proof fn lemma_remove_char_at(s: Seq<char>, c: char, start: int, i: int)
    requires
        0 <= start <= i < s.len(),
        s[i] == c,
        forall|k: int| start <= k < i ==> s[k] != c,
    ensures
        remove_char(s.skip(start), c) == s.subrange(start, i) + remove_char(s.skip(i + 1), c),
    decreases i - start,
{
    let tail = s.skip(start);
    assert(tail.skip(1) =~= s.skip(start + 1));
    if start == i {
        assert(tail[0] == c);
        assert(s.subrange(start, i) =~= Seq::<char>::empty());
        assert(remove_char(tail, c) =~= s.subrange(start, i) + remove_char(s.skip(i + 1), c));
    } else {
        assert(tail[0] == s[start]);
        assert(tail[0] != c);
        lemma_remove_char_at(s, c, start + 1, i);
        assert(seq![s[start]] + s.subrange(start + 1, i) =~= s.subrange(start, i));
        assert(remove_char(tail, c) =~= s.subrange(start, i) + remove_char(s.skip(i + 1), c));
    }
}

/// A tail without `c` is kept whole.
pub proof fn lemma_remove_char_none(s: Seq<char>, c: char, start: int)
    requires
        0 <= start <= s.len(),
        forall|k: int| start <= k < s.len() ==> s[k] != c,
    ensures
        remove_char(s.skip(start), c) == s.subrange(start, s.len() as int),
    decreases s.len() - start,
{
    let tail = s.skip(start);
    if start == s.len() {
        assert(tail =~= Seq::<char>::empty());
        assert(s.subrange(start, s.len() as int) =~= Seq::<char>::empty());
    } else {
        assert(tail[0] == s[start]);
        assert(tail[0] != c);
        assert(tail.skip(1) =~= s.skip(start + 1));
        lemma_remove_char_none(s, c, start + 1);
        assert(seq![s[start]] + s.subrange(start + 1, s.len() as int) =~= s.subrange(
            start,
            s.len() as int,
        ));
        assert(remove_char(tail, c) =~= s.subrange(start, s.len() as int));
    }
}

/// A sequence without `c` in it is left unchanged.
pub proof fn lemma_remove_char_absent(s: Seq<char>, c: char)
    requires
        !s.contains(c),
    ensures
        remove_char(s, c) == s,
{
    assert(forall|k: int| 0 <= k < s.len() ==> s[k] != c);
    lemma_remove_char_none(s, c, 0);
    assert(s.skip(0) =~= s);
    assert(s.subrange(0, s.len() as int) =~= s);
}

/// Deletes every occurrence of `c` from `s`, as `remove_char` describes.
pub fn remove_char_str(s: &str, c: char) -> (r: String)
    ensures
        r@ == remove_char(s@, c),
{
    let n = s.unicode_len();
    let mut acc = String::new();
    let mut start: usize = 0;
    let mut i: usize = 0;
    proof {
        assert(s@.skip(0) =~= s@);
    }
    while i < n
        invariant
            start <= i <= n,
            n == s@.len(),
            forall|k: int| start <= k < i ==> s@[k] != c,
            remove_char(s@, c) == acc@ + remove_char(s@.skip(start as int), c),
        decreases n - i,
    {
        let ch = s.get_char(i);
        if ch == c {
            let run = s.substring_char(start, i);
            proof {
                lemma_remove_char_at(s@, c, start as int, i as int);
            }
            acc.append(run);
            start = i + 1;
        }
        i = i + 1;
    }
    let run = s.substring_char(start, n);
    proof {
        lemma_remove_char_none(s@, c, start as int);
    }
    acc.append(run);
    acc
}

/// The views of a vector of owned fields.
pub open spec fn field_views(fields: Seq<String>) -> Seq<Seq<char>> {
    fields.map_values(|f: String| f@)
}

/// Splits `s` at every occurrence of `sep`, as `split_on` describes.
pub fn split_str(s: &str, sep: char) -> (r: Vec<String>)
    ensures
        field_views(r@) == split_on(s@, sep),
{
    let n = s.unicode_len();
    let mut fields: Vec<String> = Vec::new();
    let mut start: usize = 0;
    let mut i: usize = 0;
    proof {
        assert(s@.skip(0) =~= s@);
        assert(field_views(fields@) =~= Seq::<Seq<char>>::empty());
    }
    while i < n
        invariant
            start <= i <= n,
            n == s@.len(),
            forall|k: int| start <= k < i ==> s@[k] != sep,
            split_on(s@, sep) == field_views(fields@) + split_on(s@.skip(start as int), sep),
        decreases n - i,
    {
        let c = s.get_char(i);
        if c == sep {
            let field = s.substring_char(start, i).to_owned();
            proof {
                lemma_split_on_at_sep(s@, sep, start as int, i as int);
                assert(field_views(fields@.push(field)) =~= field_views(fields@).push(field@));
                assert(field_views(fields@).push(field@) + split_on(s@.skip(i + 1), sep) =~= (
                field_views(fields@) + (seq![s@.subrange(start as int, i as int)] + split_on(
                    s@.skip(i + 1),
                    sep,
                ))));
            }
            fields.push(field);
            start = i + 1;
        }
        i = i + 1;
    }
    let field = s.substring_char(start, n).to_owned();
    proof {
        lemma_split_on_no_sep(s@, sep, start as int);
        assert(field_views(fields@.push(field)) =~= field_views(fields@).push(field@));
        assert(field_views(fields@).push(field@) =~= field_views(fields@) + seq![
            s@.subrange(start as int, n as int),
        ]);
    }
    fields.push(field);
    fields
}

} // verus!
