//! Stored form of an icon's tags: the labels joined by commas. A label that
//! itself holds a comma cannot be told apart from two labels in this form;
//! such labels are a known limitation of the encoding.

use vstd::prelude::*;
use crate::text::{is_space, char_is_space};

verus! {

/// The characters of each string, in order.
pub open spec fn strings_view(v: Seq<String>) -> Seq<Seq<char>> {
    Seq::new(v.len(), |i: int| v[i]@)
}

/// The labels joined with a comma between each two.
pub open spec fn join_tags(tags: Seq<Seq<char>>) -> Seq<char>
    decreases tags.len(),
{
    if tags.len() == 0 {
        Seq::empty()
    } else if tags.len() == 1 {
        tags[0]
    } else {
        join_tags(tags.drop_last()) + seq![','] + tags.last()
    }
}

/// The pieces of `s` between commas; a string without a comma is one piece.
pub open spec fn split_commas(s: Seq<char>) -> Seq<Seq<char>>
    decreases s.len(),
{
    if s.len() == 0 {
        seq![Seq::empty()]
    } else {
        let rest = split_commas(s.drop_last());
        if s.last() == ',' {
            rest.push(Seq::empty())
        } else {
            rest.update(rest.len() - 1, rest.last().push(s.last()))
        }
    }
}

pub open spec fn trim_start(s: Seq<char>) -> Seq<char>
    decreases s.len(),
{
    if s.len() > 0 && is_space(s[0]) {
        trim_start(s.drop_first())
    } else {
        s
    }
}

pub open spec fn trim_end(s: Seq<char>) -> Seq<char>
    decreases s.len(),
{
    if s.len() > 0 && is_space(s.last()) {
        trim_end(s.drop_last())
    } else {
        s
    }
}

/// `s` without its leading and trailing whitespace.
pub open spec fn trim(s: Seq<char>) -> Seq<char> {
    trim_end(trim_start(s))
}

/// The labels that a stored tag string stands for: none for the empty
/// string, else each comma-separated piece with its surrounding whitespace
/// removed.
pub open spec fn decode_spec(s: Seq<char>) -> Seq<Seq<char>> {
    if s.len() == 0 {
        Seq::empty()
    } else {
        let pieces = split_commas(s);
        Seq::new(pieces.len(), |i: int| trim(pieces[i]))
    }
}

proof fn lemma_split_plain(t: Seq<char>)
    requires
        !t.contains(','),
    ensures
        split_commas(t) == seq![t],
    decreases t.len(),
{
    if t.len() > 0 {
        assert(!t.drop_last().contains(',')) by {
            if t.drop_last().contains(',') {
                let k = choose|k: int| 0 <= k < t.drop_last().len() && t.drop_last()[k] == ',';
                assert(t[k] == ',');
            }
        }
        lemma_split_plain(t.drop_last());
        assert(t.last() != ',') by {
            assert(t[t.len() - 1] == t.last());
        }
        assert(t.drop_last().push(t.last()) =~= t);
        assert(seq![t.drop_last()].update(0, t.drop_last().push(t.last())) =~= seq![t]);
    } else {
        assert(t =~= Seq::<char>::empty());
    }
}

proof fn lemma_split_after_comma(a: Seq<char>, b: Seq<char>)
    requires
        !b.contains(','),
    ensures
        split_commas(a.push(',') + b) == split_commas(a).push(b),
    decreases b.len(),
{
    if b.len() == 0 {
        assert(b =~= Seq::<char>::empty());
        assert(a.push(',') + b =~= a.push(','));
        assert((a.push(',')).drop_last() =~= a);
    } else {
        let b0 = b.drop_last();
        assert(!b0.contains(',')) by {
            if b0.contains(',') {
                let k = choose|k: int| 0 <= k < b0.len() && b0[k] == ',';
                assert(b[k] == ',');
            }
        }
        lemma_split_after_comma(a, b0);
        assert(b.last() != ',') by {
            assert(b[b.len() - 1] == b.last());
        }
        let whole = a.push(',') + b;
        assert(whole.drop_last() =~= a.push(',') + b0);
        assert(whole.last() == b.last());
        assert(b0.push(b.last()) =~= b);
        assert(split_commas(a).push(b0).update(split_commas(a).len() as int, b) =~= split_commas(
            a,
        ).push(b));
    }
}

proof fn lemma_split_join(tags: Seq<Seq<char>>)
    requires
        tags.len() >= 1,
        forall|i: int| 0 <= i < tags.len() ==> !(#[trigger] tags[i]).contains(','),
    ensures
        split_commas(join_tags(tags)) == tags,
    decreases tags.len(),
{
    if tags.len() == 1 {
        lemma_split_plain(tags[0]);
        assert(seq![tags[0]] =~= tags);
    } else {
        let init = tags.drop_last();
        assert forall|i: int| 0 <= i < init.len() implies !(#[trigger] init[i]).contains(',') by {
            assert(init[i] == tags[i]);
        }
        lemma_split_join(init);
        assert(!tags.last().contains(',')) by {
            assert(tags[tags.len() - 1] == tags.last());
        }
        assert(join_tags(init) + seq![','] + tags.last() =~= join_tags(init).push(',')
            + tags.last());
        lemma_split_after_comma(join_tags(init), tags.last());
        assert(init.push(tags.last()) =~= tags);
    }
}

/// Labels that hold no comma and no surrounding whitespace read back as
/// they were written, the empty list included. The one list of such labels
/// that does not is a single empty label, whose stored form is that of the
/// empty list.
pub proof fn lemma_tags_round_trip(tags: Seq<Seq<char>>)
    requires
        forall|i: int| 0 <= i < tags.len() ==> !(#[trigger] tags[i]).contains(','),
        forall|i: int| 0 <= i < tags.len() ==> trim(#[trigger] tags[i]) == tags[i],
        !(tags.len() == 1 && tags[0].len() == 0),
    ensures
        decode_spec(join_tags(tags)) == tags,
{
    if tags.len() == 0 {
        assert(decode_spec(join_tags(tags)) =~= tags);
    } else {
        lemma_split_join(tags);
        if tags.len() > 1 {
            let j = join_tags(tags);
            assert(j == join_tags(tags.drop_last()) + seq![','] + tags.last());
            assert(j.len() > 0);
        }
        assert(join_tags(tags).len() > 0);
        assert(decode_spec(join_tags(tags)) =~= tags);
    }
}

/// Joins the labels into their stored form.
pub fn encode_tags(tags: &Vec<String>) -> (r: String)
    ensures
        r@ == join_tags(strings_view(tags@)),
{
    let mut out = String::new();
    let mut i: usize = 0;
    while i < tags.len()
        invariant
            i <= tags.len(),
            out@ == join_tags(strings_view(tags@).take(i as int)),
        decreases tags.len() - i,
    {
        let ghost before = strings_view(tags@).take(i as int);
        if i > 0 {
            out.append(",");
        }
        out.append(tags[i].as_str());
        proof {
            reveal_strlit(",");
            let after = strings_view(tags@).take(i + 1);
            assert(after.drop_last() =~= before);
        }
        i = i + 1;
    }
    proof {
        assert(strings_view(tags@).take(tags.len() as int) =~= strings_view(tags@));
    }
    out
}

/// The characters of `s` from `start` to `end`, with surrounding whitespace
/// removed.
fn trimmed_piece(s: &str, start: usize, end: usize) -> (r: String)
    requires
        start <= end <= s@.len(),
    ensures
        r@ == trim(s@.subrange(start as int, end as int)),
{
    let mut lo = start;
    while lo < end && char_is_space(s.get_char(lo))
        invariant
            start <= lo <= end <= s@.len(),
            trim_start(s@.subrange(start as int, end as int)) == trim_start(
                s@.subrange(lo as int, end as int),
            ),
        decreases end - lo,
    {
        assert(s@.subrange(lo as int, end as int).drop_first() =~= s@.subrange(
            lo + 1,
            end as int,
        ));
        lo = lo + 1;
    }
    let mut hi = end;
    while hi > lo && char_is_space(s.get_char(hi - 1))
        invariant
            start <= lo <= hi <= end <= s@.len(),
            trim_end(s@.subrange(lo as int, end as int)) == trim_end(
                s@.subrange(lo as int, hi as int),
            ),
        decreases hi - lo,
    {
        assert(s@.subrange(lo as int, hi as int).drop_last() =~= s@.subrange(
            lo as int,
            hi - 1,
        ));
        hi = hi - 1;
    }
    String::from_str(s.substring_char(lo, hi))
}

/// Reads the labels back from their stored form.
pub fn decode_tags(stored: &String) -> (r: Vec<String>)
    ensures
        strings_view(r@) == decode_spec(stored@),
{
    let s = stored.as_str();
    let n = s.unicode_len();
    let mut out: Vec<String> = Vec::new();
    if n == 0 {
        proof {
            assert(strings_view(out@) =~= decode_spec(stored@));
        }
        return out;
    }
    let ghost pieces: Seq<Seq<char>> = Seq::empty();
    let mut start: usize = 0;
    let mut i: usize = 0;
    proof {
        assert(s@.take(0) =~= Seq::<char>::empty());
        assert(s@.subrange(0, 0) =~= Seq::<char>::empty());
        assert(pieces.push(Seq::<char>::empty()) =~= seq![Seq::<char>::empty()]);
    }
    while i < n
        invariant
            n == s@.len(),
            s@ == stored@,
            start <= i <= n,
            pieces.len() == out@.len(),
            split_commas(s@.take(i as int)) == pieces.push(s@.subrange(start as int, i as int)),
            forall|k: int| 0 <= k < pieces.len() ==> #[trigger] out@[k]@ == trim(pieces[k]),
        decreases n - i,
    {
        let c = s.get_char(i);
        proof {
            assert(s@.take(i + 1).drop_last() =~= s@.take(i as int));
        }
        if c == ',' {
            let piece = trimmed_piece(s, start, i);
            proof {
                pieces = pieces.push(s@.subrange(start as int, i as int));
                assert(s@.subrange(i + 1, i + 1) =~= Seq::<char>::empty());
            }
            out.push(piece);
            start = i + 1;
        } else {
            proof {
                assert(s@.subrange(start as int, i + 1) =~= s@.subrange(
                    start as int,
                    i as int,
                ).push(c));
            }
        }
        i = i + 1;
    }
    let last = trimmed_piece(s, start, n);
    out.push(last);
    proof {
        let all = pieces.push(s@.subrange(start as int, n as int));
        assert(s@.take(n as int) =~= s@);
        assert(strings_view(out@) =~= decode_spec(stored@));
    }
    out
}

/// Whether some string of `ids` equals `x`.
pub fn contains_string(ids: &Vec<String>, x: &String) -> (r: bool)
    ensures
        r == strings_view(ids@).contains(x@),
{
    let mut i: usize = 0;
    while i < ids.len()
        invariant
            i <= ids.len(),
            forall|k: int| 0 <= k < i ==> (#[trigger] ids@[k])@ != x@,
        decreases ids.len() - i,
    {
        if ids[i] == *x {
            assert(strings_view(ids@)[i as int] == x@);
            return true;
        }
        i = i + 1;
    }
    proof {
        if strings_view(ids@).contains(x@) {
            let k = choose|k: int| 0 <= k < strings_view(ids@).len() && strings_view(ids@)[k] == x@;
            assert(ids@[k]@ == x@);
        }
    }
    false
}

} // verus!
