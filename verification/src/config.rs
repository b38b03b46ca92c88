//! Parsing of the model-preload setting.
//!
//! The host passes the setting down as one string: a comma-separated list
//! of model names, possibly padded with whitespace. `preload_models`
//! splits it at the commas and trims each name of the ASCII whitespace
//! characters (space, tab, line feed, carriage return); an empty setting
//! means no models at all.

use vstd::prelude::*;
use vstd::string::StrSliceExecFns;

verus! {

/// The whitespace characters trimmed from a model name.
pub open spec fn is_space(c: char) -> bool {
    c == ' ' || c == '\t' || c == '\n' || c == '\r'
}

/// `s` without its leading whitespace.
pub open spec fn trim_front(s: Seq<char>) -> Seq<char>
    decreases s.len(),
{
    if s.len() > 0 && is_space(s[0]) {
        trim_front(s.drop_first())
    } else {
        s
    }
}

/// `s` without its trailing whitespace.
pub open spec fn trim_back(s: Seq<char>) -> Seq<char>
    decreases s.len(),
{
    if s.len() > 0 && is_space(s.last()) {
        trim_back(s.drop_last())
    } else {
        s
    }
}

/// `s` without leading and trailing whitespace.
pub open spec fn trim_spaces(s: Seq<char>) -> Seq<char> {
    trim_back(trim_front(s))
}

/// The fields of `s` between its commas, in order. A string without a
/// comma is one field; every comma separates two fields, so `","` has
/// two empty ones.
pub open spec fn split_commas(s: Seq<char>) -> Seq<Seq<char>>
    decreases s.len(),
{
    if s.len() == 0 {
        seq![Seq::empty()]
    } else if s[0] == ',' {
        seq![Seq::<char>::empty()] + split_commas(s.drop_first())
    } else {
        let rest = split_commas(s.drop_first());
        seq![seq![s[0]] + rest[0]] + rest.drop_first()
    }
}

/// A string without commas is a single field.
proof fn lemma_split_no_comma(s: Seq<char>)
    requires
        forall|k: int| 0 <= k < s.len() ==> s[k] != ',',
    ensures
        split_commas(s) == seq![s],
    decreases s.len(),
{
    if s.len() == 0 {
        assert(split_commas(s) =~~= seq![s]);
    } else {
        lemma_split_no_comma(s.drop_first());
        let rest = split_commas(s.drop_first());
        assert(rest.drop_first() =~~= Seq::<Seq<char>>::empty());
        assert(seq![s[0]] + s.drop_first() =~= s);
        assert(split_commas(s) =~~= seq![s]);
    }
}

/// Splitting at the first comma: a comma after a comma-free prefix
/// separates that prefix from the split of what follows.
proof fn lemma_split_at_comma(pre: Seq<char>, post: Seq<char>)
    requires
        forall|k: int| 0 <= k < pre.len() ==> pre[k] != ',',
    ensures
        split_commas(pre + seq![','] + post) == seq![pre] + split_commas(post),
    decreases pre.len(),
{
    let s = pre + seq![','] + post;
    if pre.len() == 0 {
        assert(s[0] == ',');
        assert(s.drop_first() =~= post);
        assert(split_commas(s) =~~= seq![pre] + split_commas(post));
    } else {
        assert(s[0] == pre[0]);
        assert(s[0] != ',');
        assert(s.drop_first() =~= pre.drop_first() + seq![','] + post);
        lemma_split_at_comma(pre.drop_first(), post);
        let rest = split_commas(s.drop_first());
        assert(rest[0] == pre.drop_first());
        assert(rest.drop_first() =~~= split_commas(post));
        assert(seq![s[0]] + rest[0] =~= pre);
        assert(split_commas(s) =~~= seq![pre] + split_commas(post));
    }
}

/// Exec mirror of `is_space`.
fn char_is_space(c: char) -> (r: bool)
    ensures
        r == is_space(c),
{
    c == ' ' || c == '\t' || c == '\n' || c == '\r'
}

/// Trims the field `models[start..end)` and appends it to `out`.
#[verifier::loop_isolation(false)]
fn push_trimmed_field(out: &mut Vec<String>, models: &str, start: usize, end: usize)
    requires
        start <= end <= models@.len(),
    ensures
        final(out)@.len() == old(out)@.len() + 1,
        forall|k: int| 0 <= k < old(out)@.len() ==> #[trigger] final(out)@[k] == old(out)@[k],
        final(out)@[old(out)@.len() as int]@ == trim_spaces(
            models@.subrange(start as int, end as int),
        ),
{
    let ghost field = models@.subrange(start as int, end as int);
    let mut a = start;
    while a < end && char_is_space(models.get_char(a))
        invariant
            start <= a <= end,
            trim_front(field) == trim_front(models@.subrange(a as int, end as int)),
        decreases end - a,
    {
        proof {
            let cur = models@.subrange(a as int, end as int);
            assert(cur.drop_first() =~= models@.subrange(a + 1, end as int));
        }
        a = a + 1;
    }
    proof {
        assert(trim_front(field) == models@.subrange(a as int, end as int));
    }
    let mut b = end;
    while b > a && char_is_space(models.get_char(b - 1))
        invariant
            a <= b <= end,
            trim_back(models@.subrange(a as int, end as int)) == trim_back(
                models@.subrange(a as int, b as int),
            ),
        decreases b,
    {
        proof {
            let cur = models@.subrange(a as int, b as int);
            assert(cur.last() == models@[b - 1]);
            assert(cur.drop_last() =~= models@.subrange(a as int, b - 1));
        }
        b = b - 1;
    }
    proof {
        assert(trim_spaces(field) == models@.subrange(a as int, b as int));
    }
    let name = models.substring_char(a, b).to_owned();
    out.push(name);
}

/// Splits the preload setting at its commas and trims each model name of
/// surrounding whitespace. An empty setting names no models.
#[verifier::loop_isolation(false)]
pub fn preload_models(models: &str) -> (r: Vec<String>)
    ensures
        models@.len() == 0 ==> r@.len() == 0,
        models@.len() > 0 ==> r@.map_values(|t: String| t@) == split_commas(models@).map_values(
            |f: Seq<char>| trim_spaces(f),
        ),
{
    let n = models.unicode_len();
    if n == 0 {
        return Vec::new();
    }
    let mut out: Vec<String> = Vec::new();
    let ghost mut done: Seq<Seq<char>> = Seq::empty();
    let mut start: usize = 0;
    let mut i: usize = 0;
    proof {
        assert(models@.subrange(0, n as int) =~= models@);
        assert(split_commas(models@) =~~= done + split_commas(models@));
        assert(out@.map_values(|t: String| t@) =~~= done.map_values(|f: Seq<char>| trim_spaces(f)));
    }
    while i < n
        invariant
            start <= i <= n,
            n == models@.len(),
            forall|k: int| start <= k < i ==> models@[k] != ',',
            split_commas(models@) == done + split_commas(models@.subrange(start as int, n as int)),
            out@.map_values(|t: String| t@) == done.map_values(|f: Seq<char>| trim_spaces(f)),
        decreases n - i,
    {
        if models.get_char(i) == ',' {
            push_trimmed_field(&mut out, models, start, i);
            proof {
                let pre = models@.subrange(start as int, i as int);
                let post = models@.subrange(i + 1, n as int);
                assert(models@.subrange(start as int, n as int) =~= pre + seq![','] + post);
                lemma_split_at_comma(pre, post);
                let prev_done = done;
                done = done.push(pre);
                assert(split_commas(models@) =~~= done + split_commas(post));
                let lhs = out@.map_values(|t: String| t@);
                let rhs = done.map_values(|f: Seq<char>| trim_spaces(f));
                assert forall|k: int| 0 <= k < lhs.len() implies #[trigger] lhs[k] == rhs[k] by {
                    if k < prev_done.len() {
                        assert(lhs[k] == out@[k]@);
                        assert(prev_done.map_values(|f: Seq<char>| trim_spaces(f))[k]
                            == trim_spaces(prev_done[k]));
                    }
                }
                assert(lhs =~~= rhs);
            }
            start = i + 1;
        }
        i = i + 1;
    }
    push_trimmed_field(&mut out, models, start, n);
    proof {
        let last_field = models@.subrange(start as int, n as int);
        lemma_split_no_comma(last_field);
        let prev_done = done;
        done = done.push(last_field);
        assert(split_commas(models@) =~~= done);
        let lhs = out@.map_values(|t: String| t@);
        let rhs = done.map_values(|f: Seq<char>| trim_spaces(f));
        assert forall|k: int| 0 <= k < lhs.len() implies #[trigger] lhs[k] == rhs[k] by {
            if k < prev_done.len() {
                assert(lhs[k] == out@[k]@);
                assert(prev_done.map_values(|f: Seq<char>| trim_spaces(f))[k] == trim_spaces(
                    prev_done[k],
                ));
            }
        }
        assert(lhs =~~= rhs);
    }
    out
}

} // verus!
