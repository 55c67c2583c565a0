use vstd::prelude::*;
use vstd::string::*;

verus! {

/// The views of a sequence of strings.
pub open spec fn views_of(parts: Seq<String>) -> Seq<Seq<char>> {
    parts.map_values(|p: String| p@)
}

/// The pieces of `s` between occurrences of `sep`, in order. Splitting the
/// empty sequence yields one empty piece, matching `str::split`, so the
/// result always has at least one element.
pub open spec fn split_char(s: Seq<char>, sep: char) -> Seq<Seq<char>>
    decreases s.len(),
{
    if s.len() == 0 {
        seq![s]
    } else if s[0] == sep {
        seq![Seq::<char>::empty()] + split_char(s.skip(1), sep)
    } else {
        let rest = split_char(s.skip(1), sep);
        seq![seq![s[0]] + rest[0]] + rest.skip(1)
    }
}

pub proof fn lemma_split_char_len(s: Seq<char>, sep: char)
    ensures
        split_char(s, sep).len() >= 1,
    decreases s.len(),
{
    if s.len() == 0 {
    } else {
        lemma_split_char_len(s.skip(1), sep);
    }
}

/// Splitting separator-free text yields the text as the one piece.
pub proof fn lemma_split_char_whole(x: Seq<char>, sep: char)
    requires
        forall|i: int| 0 <= i < x.len() ==> x[i] != sep,
    ensures
        split_char(x, sep) == seq![x],
    decreases x.len(),
{
    if x.len() == 0 {
    } else {
        assert forall|i: int| 0 <= i < x.skip(1).len() implies x.skip(1)[i] != sep by {
            assert(x.skip(1)[i] == x[i + 1]);
        }
        lemma_split_char_whole(x.skip(1), sep);
        let rest = split_char(x.skip(1), sep);
        assert(rest[0] == x.skip(1));
        assert(seq![x[0]] + x.skip(1) =~= x);
        assert(rest.skip(1) =~= Seq::<Seq<char>>::empty());
        assert(split_char(x, sep) =~= seq![x]);
    }
}

/// Splitting `x ++ sep ++ rest`, with `x` separator-free, peels `x` off as
/// the first piece.
pub proof fn lemma_split_char_concat(x: Seq<char>, rest: Seq<char>, sep: char)
    requires
        forall|i: int| 0 <= i < x.len() ==> x[i] != sep,
    ensures
        split_char(x + seq![sep] + rest, sep) == seq![x] + split_char(rest, sep),
    decreases x.len(),
{
    let s = x + seq![sep] + rest;
    if x.len() == 0 {
        assert(s.len() > 0 && s[0] == sep);
        assert(s.skip(1) =~= rest);
        assert(Seq::<char>::empty() =~= x);
        assert(split_char(s, sep) =~= seq![x] + split_char(rest, sep));
    } else {
        assert(s.len() > 0 && s[0] == x[0] && s[0] != sep);
        assert forall|i: int| 0 <= i < x.skip(1).len() implies x.skip(1)[i] != sep by {
            assert(x.skip(1)[i] == x[i + 1]);
        }
        lemma_split_char_concat(x.skip(1), rest, sep);
        assert(s.skip(1) =~= x.skip(1) + seq![sep] + rest);
        let r = split_char(s.skip(1), sep);
        assert(r == seq![x.skip(1)] + split_char(rest, sep));
        assert(r[0] == x.skip(1));
        assert(seq![s[0]] + x.skip(1) =~= x);
        assert(r.skip(1) =~= split_char(rest, sep));
        assert(split_char(s, sep) =~= seq![x] + split_char(rest, sep));
    }
}

/// A segment already begun (`p`) prepended onto the first piece of `rest`:
/// the splits still to come if scanning resumes mid-segment.
spec fn cons_front(p: Seq<char>, rest: Seq<Seq<char>>) -> Seq<Seq<char>>
    recommends
        rest.len() >= 1,
{
    seq![p + rest[0]] + rest.skip(1)
}

/// Splits `s` on every occurrence of `sep`, as `str::split` does.
pub fn split_str(s: &str, sep: char) -> (parts: Vec<String>)
    ensures
        views_of(parts@) == split_char(s@, sep),
{
    let len: usize = s.unicode_len();
    let mut parts: Vec<String> = Vec::new();
    let mut seg_start: usize = 0;
    let mut i: usize = 0;
    proof {
        lemma_split_char_len(s@, sep);
        assert(s@.skip(0) =~= s@);
        assert(Seq::<char>::empty() + split_char(s@, sep)[0] =~= split_char(s@, sep)[0]);
        assert(cons_front(s@.subrange(0, 0), split_char(s@, sep)) =~= split_char(s@, sep));
        assert(views_of(parts@) + cons_front(s@.subrange(0, 0), split_char(s@, sep)) =~= split_char(
            s@,
            sep,
        ));
    }
    while i < len
        invariant
            seg_start <= i <= len,
            len == s@.len(),
            split_char(s@, sep) == views_of(parts@) + cons_front(
                s@.subrange(seg_start as int, i as int),
                split_char(s@.skip(i as int), sep),
            ),
        decreases len - i,
    {
        let ghost tail = s@.skip(i as int);
        let ghost tail2 = s@.skip(i as int + 1);
        proof {
            assert(tail.len() > 0);
            assert(tail[0] == s@[i as int]);
            assert(tail.skip(1) =~= tail2);
            lemma_split_char_len(tail2, sep);
        }
        let c = s.get_char(i);
        if c == sep {
            let piece = s.substring_char(seg_start, i);
            let ghost cur = s@.subrange(seg_start as int, i as int);
            proof {
                assert(split_char(tail, sep) == seq![Seq::<char>::empty()] + split_char(
                    tail2,
                    sep,
                ));
                assert((seq![Seq::<char>::empty()] + split_char(tail2, sep))[0]
                    == Seq::<char>::empty());
                assert((seq![Seq::<char>::empty()] + split_char(tail2, sep)).skip(1) =~= split_char(
                    tail2,
                    sep,
                ));
                assert(cur + Seq::<char>::empty() =~= cur);
                assert(cons_front(cur, split_char(tail, sep)) =~= seq![cur] + split_char(
                    tail2,
                    sep,
                ));
            }
            parts.push(piece.to_owned());
            proof {
                let ghost empty_seg = s@.subrange(i as int + 1, i as int + 1);
                assert(empty_seg =~= Seq::<char>::empty());
                assert(Seq::<char>::empty() + split_char(tail2, sep)[0] =~= split_char(
                    tail2,
                    sep,
                )[0]);
                assert(cons_front(empty_seg, split_char(tail2, sep)) =~= split_char(tail2, sep));
                assert(views_of(parts@) =~= views_of(parts@.drop_last()).push(cur));
                assert(views_of(parts@) + cons_front(empty_seg, split_char(tail2, sep))
                    =~= views_of(parts@.drop_last()) + (seq![cur] + split_char(tail2, sep)));
            }
            seg_start = i + 1;
        } else {
            proof {
                let r = split_char(tail2, sep);
                let cur = s@.subrange(seg_start as int, i as int);
                let cur1 = s@.subrange(seg_start as int, i as int + 1);
                assert(split_char(tail, sep) == seq![seq![tail[0]] + r[0]] + r.skip(1));
                assert((seq![seq![tail[0]] + r[0]] + r.skip(1))[0] == seq![tail[0]] + r[0]);
                assert((seq![seq![tail[0]] + r[0]] + r.skip(1)).skip(1) =~= r.skip(1));
                assert(cur1 =~= cur + seq![s@[i as int]]);
                assert(cur + (seq![tail[0]] + r[0]) =~= cur1 + r[0]);
                assert(cons_front(cur, split_char(tail, sep)) =~= cons_front(cur1, r));
            }
        }
        i = i + 1;
    }
    let piece = s.substring_char(seg_start, len);
    let ghost last_seg = s@.subrange(seg_start as int, len as int);
    proof {
        assert(s@.skip(len as int) =~= Seq::<char>::empty());
        assert(split_char(s@.skip(len as int), sep) == seq![Seq::<char>::empty()]);
        assert(last_seg + Seq::<char>::empty() =~= last_seg);
        assert((seq![Seq::<char>::empty()]).skip(1) =~= Seq::<Seq<char>>::empty());
        assert(cons_front(last_seg, seq![Seq::<char>::empty()]) =~= seq![last_seg]);
    }
    parts.push(piece.to_owned());
    proof {
        assert(views_of(parts@) =~= views_of(parts@.drop_last()).push(last_seg));
        assert(views_of(parts@) =~= views_of(parts@.drop_last()) + seq![last_seg]);
        assert(views_of(parts@) =~= split_char(s@, sep));
    }
    parts
}

/// The whitespace recognized when an endpoint's response body is trimmed.
pub open spec fn is_space_char(c: char) -> bool {
    c == ' ' || c == '\t' || c == '\r' || c == '\n'
}

pub open spec fn trim_start_chars(s: Seq<char>) -> Seq<char>
    decreases s.len(),
{
    if s.len() > 0 && is_space_char(s[0]) {
        trim_start_chars(s.skip(1))
    } else {
        s
    }
}

pub open spec fn trim_end_chars(s: Seq<char>) -> Seq<char>
    decreases s.len(),
{
    if s.len() > 0 && is_space_char(s.last()) {
        trim_end_chars(s.drop_last())
    } else {
        s
    }
}

/// `s` with leading and trailing whitespace removed.
pub open spec fn trim_chars(s: Seq<char>) -> Seq<char> {
    trim_end_chars(trim_start_chars(s))
}

fn is_space(c: char) -> (r: bool)
    ensures
        r == is_space_char(c),
{
    c == ' ' || c == '\t' || c == '\r' || c == '\n'
}

/// Removes leading and trailing whitespace, as endpoint response bodies
/// are trimmed before parsing.
pub fn trim_str<'a>(s: &'a str) -> (r: &'a str)
    ensures
        r@ == trim_chars(s@),
{
    let len: usize = s.unicode_len();
    let mut lo: usize = 0;
    proof {
        assert(s@.skip(0) =~= s@);
    }
    while lo < len && is_space(s.get_char(lo))
        invariant
            lo <= len,
            len == s@.len(),
            trim_start_chars(s@) == trim_start_chars(s@.skip(lo as int)),
        decreases len - lo,
    {
        proof {
            assert(s@.skip(lo as int)[0] == s@[lo as int]);
            assert(s@.skip(lo as int).skip(1) =~= s@.skip(lo as int + 1));
        }
        lo = lo + 1;
    }
    proof {
        if lo == len {
            assert(s@.skip(lo as int).len() == 0);
        } else {
            assert(s@.skip(lo as int)[0] == s@[lo as int]);
        }
        assert(trim_start_chars(s@) == s@.skip(lo as int));
        assert(s@.subrange(lo as int, len as int) =~= s@.skip(lo as int));
    }
    let mut hi: usize = len;
    while hi > lo && is_space(s.get_char(hi - 1))
        invariant
            lo <= hi <= len,
            len == s@.len(),
            trim_start_chars(s@) == s@.skip(lo as int),
            trim_end_chars(s@.skip(lo as int)) == trim_end_chars(
                s@.subrange(lo as int, hi as int),
            ),
        decreases hi,
    {
        proof {
            let piece = s@.subrange(lo as int, hi as int);
            assert(piece.last() == s@[hi as int - 1]);
            assert(piece.drop_last() =~= s@.subrange(lo as int, hi as int - 1));
        }
        hi = hi - 1;
    }
    proof {
        let piece = s@.subrange(lo as int, hi as int);
        if hi == lo {
            assert(piece.len() == 0);
        } else {
            assert(piece.last() == s@[hi as int - 1]);
        }
        assert(trim_end_chars(piece) == piece);
    }
    s.substring_char(lo, hi)
}

/// Splits the comma-separated subdomain list from configuration; an empty
/// string means zero subdomains rather than one empty name.
pub fn split_subdomain(subdomains: &str) -> (parts: Vec<String>)
    ensures
        subdomains@.len() == 0 ==> parts@.len() == 0,
        subdomains@.len() > 0 ==> views_of(parts@) == split_char(subdomains@, ','),
{
    if subdomains.unicode_len() == 0 {
        Vec::new()
    } else {
        split_str(subdomains, ',')
    }
}

/// Whether `x` occurs among the views of `s`.
pub open spec fn contains_view(s: Seq<Seq<char>>, x: Seq<char>) -> bool {
    exists|j: int| 0 <= j < s.len() && #[trigger] s[j] == x
}

/// The names with repeats removed: the first occurrence of each name is
/// kept, in order.
pub open spec fn dedup_views(s: Seq<Seq<char>>) -> Seq<Seq<char>>
    decreases s.len(),
{
    if s.len() == 0 {
        Seq::empty()
    } else if contains_view(s.drop_last(), s.last()) {
        dedup_views(s.drop_last())
    } else {
        dedup_views(s.drop_last()).push(s.last())
    }
}

/// Law: removing repeats keeps exactly the names that were there.
pub proof fn lemma_dedup_contains(s: Seq<Seq<char>>, x: Seq<char>)
    ensures
        contains_view(dedup_views(s), x) == contains_view(s, x),
    decreases s.len(),
{
    if s.len() == 0 {
    } else {
        lemma_dedup_contains(s.drop_last(), x);
        assert(contains_view(s, x) == (contains_view(s.drop_last(), x) || x == s.last())) by {
            if contains_view(s, x) {
                let j = choose|j: int| 0 <= j < s.len() && #[trigger] s[j] == x;
                if j < s.len() - 1 {
                    assert(s.drop_last()[j] == x);
                }
            }
            if contains_view(s.drop_last(), x) {
                let j = choose|j: int| 0 <= j < s.drop_last().len() && #[trigger] s.drop_last()[j]
                    == x;
                assert(s[j] == x);
            }
            if x == s.last() {
                assert(s[s.len() - 1] == x);
            }
        }
        let prefix = dedup_views(s.drop_last());
        if contains_view(s.drop_last(), s.last()) {
        } else {
            assert(contains_view(prefix.push(s.last()), x) == (contains_view(prefix, x) || x
                == s.last())) by {
                if contains_view(prefix.push(s.last()), x) {
                    let j = choose|j: int|
                        0 <= j < prefix.push(s.last()).len() && #[trigger] prefix.push(s.last())[j]
                            == x;
                    if j < prefix.len() {
                        assert(prefix[j] == x);
                    }
                }
                if contains_view(prefix, x) {
                    let j = choose|j: int| 0 <= j < prefix.len() && #[trigger] prefix[j] == x;
                    assert(prefix.push(s.last())[j] == x);
                }
                assert(prefix.push(s.last())[prefix.len() as int] == s.last());
            }
        }
    }
}

/// Whether one of `names` is exactly `x`.
fn contains_name(names: &Vec<String>, x: &String) -> (r: bool)
    ensures
        r == contains_view(views_of(names@), x@),
{
    let mut i: usize = 0;
    while i < names.len()
        invariant
            i <= names@.len(),
            forall|j: int| 0 <= j < i ==> #[trigger] views_of(names@)[j] != x@,
        decreases names@.len() - i,
    {
        if names[i] == *x {
            proof {
                assert(views_of(names@)[i as int] == x@);
            }
            return true;
        }
        i = i + 1;
    }
    proof {
        assert(!contains_view(views_of(names@), x@)) by {
            if contains_view(views_of(names@), x@) {
                let j = choose|j: int|
                    0 <= j < views_of(names@).len() && #[trigger] views_of(names@)[j] == x@;
            }
        }
    }
    false
}

/// Removes repeated names, keeping the first occurrence of each in order,
/// as the configured subdomain list is a set of names.
pub fn dedup_names(names: &Vec<String>) -> (r: Vec<String>)
    ensures
        views_of(r@) == dedup_views(views_of(names@)),
{
    let ghost nv = views_of(names@);
    let mut out: Vec<String> = Vec::new();
    let mut i: usize = 0;
    proof {
        assert(nv.take(0) =~= Seq::<Seq<char>>::empty());
        assert(views_of(out@) =~= dedup_views(nv.take(0)));
    }
    while i < names.len()
        invariant
            i <= names@.len(),
            nv == views_of(names@),
            views_of(out@) == dedup_views(nv.take(i as int)),
        decreases names@.len() - i,
    {
        proof {
            assert(nv.take(i as int + 1).drop_last() =~= nv.take(i as int));
            assert(nv.take(i as int + 1).last() == nv[i as int]);
            assert(nv[i as int] == names@[i as int]@);
            lemma_dedup_contains(nv.take(i as int), nv[i as int]);
        }
        if !contains_name(&out, &names[i]) {
            let ghost before = out@;
            out.push(names[i].clone());
            proof {
                assert(views_of(out@) =~= views_of(before).push(nv[i as int]));
            }
        }
        i = i + 1;
    }
    proof {
        assert(nv.take(names@.len() as int) =~= nv);
    }
    out
}

/// The fully-qualified name `<subdomain>.<domain>` that a managed record
/// carries at the provider.
pub fn full_name(subdomain: &str, domain: &str) -> (r: String)
    ensures
        r@ == subdomain@ + seq!['.'] + domain@,
{
    let mut r = subdomain.to_owned();
    r.append(".");
    r.append(domain);
    proof {
        reveal_strlit(".");
        assert(r@ =~= subdomain@ + seq!['.'] + domain@);
    }
    r
}

} // verus!
