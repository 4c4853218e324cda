//! Absolute `/`-delimited paths: splitting into segments and joining back.
use vstd::prelude::*;
use vstd::string::StrSliceExecFns;
use vstd::string::StringExecFns;

verus! {

/// The segments read so far from the first `n` characters, and where the
/// segment being read started.
pub open spec fn split_state(s: Seq<char>, n: int) -> (Seq<Seq<char>>, int)
    decreases n,
{
    if n <= 0 {
        (seq![], 0)
    } else {
        let (acc, st) = split_state(s, n - 1);
        if s[n - 1] == '/' {
            if st < n - 1 {
                (acc.push(s.subrange(st, n - 1)), n)
            } else {
                (acc, n)
            }
        } else {
            (acc, st)
        }
    }
}

/// The non-empty runs of characters between `/` separators.
pub open spec fn split_spec(s: Seq<char>) -> Seq<Seq<char>> {
    let (acc, st) = split_state(s, s.len() as int);
    if st < s.len() {
        acc.push(s.subrange(st, s.len() as int))
    } else {
        acc
    }
}

/// The characters of each string.
pub open spec fn segs(v: Seq<String>) -> Seq<Seq<char>> {
    v.map_values(|x: String| x@)
}

/// Segments joined with `/` between them.
pub open spec fn join_spec(parts: Seq<Seq<char>>) -> Seq<char>
    decreases parts.len(),
{
    if parts.len() == 0 {
        seq![]
    } else if parts.len() == 1 {
        parts[0]
    } else {
        join_spec(parts.drop_last()) + "/"@ + parts.last()
    }
}

/// The absolute path made of the given segments.
pub open spec fn absolute(parts: Seq<Seq<char>>) -> Seq<char> {
    "/"@ + join_spec(parts)
}

/// Splits a path into its non-empty segments.
pub fn split_path(path: &str) -> (r: Vec<String>)
    ensures
        segs(r@) == split_spec(path@),
{
    let len = path.unicode_len();
    let mut acc: Vec<String> = Vec::new();
    let mut start: usize = 0;
    let mut i: usize = 0;
    while i < len
        invariant
            len == path@.len(),
            i <= len,
            start <= i,
            segs(acc@) == split_state(path@, i as int).0,
            start == split_state(path@, i as int).1,
        decreases len - i,
    {
        let c = path.get_char(i);
        if c == '/' {
            if start < i {
                let seg = path.substring_char(start, i).to_owned();
                let ghost prev = acc@;
                acc.push(seg);
                assert(segs(acc@) =~= segs(prev).push(seg@));
            }
            start = i + 1;
        }
        i = i + 1;
    }
    if start < len {
        let seg = path.substring_char(start, len).to_owned();
        let ghost prev = acc@;
        acc.push(seg);
        assert(segs(acc@) =~= segs(prev).push(seg@));
    }
    acc
}

/// The absolute path made of the given segments.
pub fn join_absolute(parts: &Vec<String>) -> (r: String)
    ensures
        r@ == absolute(segs(parts@)),
{
    let mut out = String::from_str("/");
    let mut i: usize = 0;
    while i < parts.len()
        invariant
            i <= parts@.len(),
            out@ == "/"@ + join_spec(segs(parts@.subrange(0, i as int))),
        decreases parts@.len() - i,
    {
        let ghost before = out@;
        if i > 0 {
            out.append("/");
        }
        out.append(parts[i].as_str());
        proof {
            let t = parts@.subrange(0, i as int + 1);
            assert(segs(t).drop_last() =~= segs(parts@.subrange(0, i as int)));
            assert(segs(t).last() == parts@[i as int]@);
            if i == 0 {
                assert(join_spec(segs(parts@.subrange(0, 0))) =~= seq![]);
                assert(segs(t).len() == 1);
            }
            assert(out@ =~= "/"@ + join_spec(segs(t)));
        }
        i = i + 1;
    }
    assert(parts@.subrange(0, i as int) =~= parts@);
    out
}

/// Whether two lists of segments are equal.
pub fn segs_equal(a: &Vec<String>, b: &Vec<String>) -> (r: bool)
    ensures
        r == (segs(a@) == segs(b@)),
{
    if a.len() != b.len() {
        return false;
    }
    let mut i: usize = 0;
    while i < a.len()
        invariant
            a@.len() == b@.len(),
            i <= a@.len(),
            forall|k: int| 0 <= k < i ==> a@[k]@ == b@[k]@,
        decreases a@.len() - i,
    {
        if a[i] != b[i] {
            assert(segs(a@)[i as int] != segs(b@)[i as int]);
            return false;
        }
        i = i + 1;
    }
    assert(segs(a@) =~= segs(b@));
    true
}

/// Whether `p` is a prefix of `q`, segment by segment.
pub open spec fn seg_prefix(p: Seq<Seq<char>>, q: Seq<Seq<char>>) -> bool {
    p.len() <= q.len() && q.subrange(0, p.len() as int) == p
}

/// Whether the segments of `a` begin with those of `b`.
pub fn starts_with_segs(a: &Vec<String>, b: &Vec<String>) -> (r: bool)
    ensures
        r == seg_prefix(segs(b@), segs(a@)),
{
    if b.len() > a.len() {
        return false;
    }
    let mut i: usize = 0;
    while i < b.len()
        invariant
            b@.len() <= a@.len(),
            i <= b@.len(),
            forall|k: int| 0 <= k < i ==> a@[k]@ == b@[k]@,
        decreases b@.len() - i,
    {
        if a[i] != b[i] {
            assert(segs(a@).subrange(0, b@.len() as int)[i as int] != segs(b@)[i as int]);
            return false;
        }
        i = i + 1;
    }
    assert(segs(a@).subrange(0, b@.len() as int) =~= segs(b@));
    true
}

/// The characters after a fixed prefix, when the string begins with it.
pub fn strip_prefix(s: &str, prefix: &str) -> (r: Option<String>)
    ensures
        match r {
            Some(rest) => s@.len() >= prefix@.len() && s@.subrange(0, prefix@.len() as int)
                == prefix@ && rest@ == s@.subrange(prefix@.len() as int, s@.len() as int),
            None => !(s@.len() >= prefix@.len() && s@.subrange(0, prefix@.len() as int)
                == prefix@),
        },
{
    let n = s.unicode_len();
    let m = prefix.unicode_len();
    if m > n {
        return None;
    }
    let mut i: usize = 0;
    while i < m
        invariant
            m == prefix@.len(),
            n == s@.len(),
            m <= n,
            i <= m,
            forall|k: int| 0 <= k < i ==> s@[k] == prefix@[k],
        decreases m - i,
    {
        if s.get_char(i) != prefix.get_char(i) {
            assert(s@.subrange(0, m as int)[i as int] != prefix@[i as int]);
            return None;
        }
        i = i + 1;
    }
    assert(s@.subrange(0, m as int) =~= prefix@);
    Some(s.substring_char(m, n).to_owned())
}

/// Whether two strings hold the same characters.
pub fn str_equal(a: &str, b: &str) -> (r: bool)
    ensures
        r == (a@ == b@),
{
    let n = a.unicode_len();
    let m = b.unicode_len();
    if n != m {
        return false;
    }
    let mut i: usize = 0;
    while i < n
        invariant
            n == a@.len(),
            m == b@.len(),
            n == m,
            i <= n,
            forall|k: int| 0 <= k < i ==> a@[k] == b@[k],
        decreases n - i,
    {
        if a.get_char(i) != b.get_char(i) {
            return false;
        }
        i = i + 1;
    }
    assert(a@ =~= b@);
    true
}

/// A path segment as splitting produces it: non-empty, without `/`.
pub open spec fn valid_seg(w: Seq<char>) -> bool {
    w.len() > 0 && forall|j: int| 0 <= j < w.len() ==> w[j] != '/'
}

/// Every segment is one that splitting produces.
pub open spec fn valid_segs(p: Seq<Seq<char>>) -> bool {
    forall|i: int| 0 <= i < p.len() ==> valid_seg(#[trigger] p[i])
}

proof fn lemma_split_state_facts(s: Seq<char>, n: int)
    requires
        0 <= n <= s.len(),
    ensures
        0 <= split_state(s, n).1 <= n,
        forall|j: int| split_state(s, n).1 <= j < n ==> s[j] != '/',
        valid_segs(split_state(s, n).0),
    decreases n,
{
    if n > 0 {
        lemma_split_state_facts(s, n - 1);
        let (acc, st) = split_state(s, n - 1);
        if s[n - 1] == '/' && st < n - 1 {
            let w = s.subrange(st, n - 1);
            assert(valid_seg(w));
            let a2 = acc.push(w);
            assert forall|i: int| 0 <= i < a2.len() implies valid_seg(#[trigger] a2[i]) by {
                if i < acc.len() {
                    assert(a2[i] == acc[i]);
                }
            }
        }
    }
}

/// Splitting gives segments without `/`, none of them empty.
pub proof fn lemma_split_valid(s: Seq<char>)
    ensures
        valid_segs(split_spec(s)),
{
    lemma_split_state_facts(s, s.len() as int);
    let (acc, st) = split_state(s, s.len() as int);
    if st < s.len() {
        let w = s.subrange(st, s.len() as int);
        assert(valid_seg(w));
        let a2 = acc.push(w);
        assert forall|i: int| 0 <= i < a2.len() implies valid_seg(#[trigger] a2[i]) by {
            if i < acc.len() {
                assert(a2[i] == acc[i]);
            }
        }
    }
}

proof fn lemma_split_state_prefix(s: Seq<char>, t: Seq<char>, n: int)
    requires
        0 <= n <= s.len(),
    ensures
        split_state(s + t, n) == split_state(s, n),
    decreases n,
{
    if n > 0 {
        lemma_split_state_prefix(s, t, n - 1);
        lemma_split_state_facts(s, n - 1);
        let st = split_state(s, n - 1).1;
        assert((s + t)[n - 1] == s[n - 1]);
        assert((s + t).subrange(st, n - 1) =~= s.subrange(st, n - 1));
    }
}

proof fn lemma_split_state_run(s: Seq<char>, n: int, m: int)
    requires
        0 <= n,
        0 <= m,
        n + m <= s.len(),
        forall|j: int| n <= j < n + m ==> s[j] != '/',
    ensures
        split_state(s, n + m) == split_state(s, n),
    decreases m,
{
    if m > 0 {
        lemma_split_state_run(s, n, m - 1);
    }
}

proof fn lemma_join_ends(parts: Seq<Seq<char>>)
    requires
        parts.len() > 0,
    ensures
        join_spec(parts).len() >= parts.last().len(),
        join_spec(parts).subrange(
            join_spec(parts).len() - parts.last().len(),
            join_spec(parts).len() as int,
        ) == parts.last(),
{
    let j = join_spec(parts);
    if parts.len() == 1 {
        assert(j.subrange(0, j.len() as int) =~= j);
    } else {
        let a = join_spec(parts.drop_last()) + "/"@;
        assert(j == a + parts.last());
        assert(j.subrange(a.len() as int, j.len() as int) =~= parts.last());
    }
}

proof fn lemma_split_state_absolute(parts: Seq<Seq<char>>)
    requires
        parts.len() > 0,
        valid_segs(parts),
    ensures
        split_state(absolute(parts), absolute(parts).len() as int) == (
            parts.drop_last(),
            absolute(parts).len() - parts.last().len(),
        ),
    decreases parts.len(),
{
    reveal_strlit("/");
    let s = absolute(parts);
    let w = parts.last();
    assert(valid_seg(w));
    if parts.len() == 1 {
        assert(s == "/"@ + w);
        assert(s[0] == '/');
        assert(split_state(s, 0).0 =~= Seq::<Seq<char>>::empty());
        assert(split_state(s, 1).0 =~= Seq::<Seq<char>>::empty());
        assert(split_state(s, 1) == (Seq::<Seq<char>>::empty(), 1int));
        lemma_split_state_run(s, 1, w.len() as int);
        assert(parts.drop_last() =~= Seq::<Seq<char>>::empty());
    } else {
        let p = parts.drop_last();
        assert forall|i: int| 0 <= i < p.len() implies valid_seg(#[trigger] p[i]) by {
            assert(p[i] == parts[i]);
        }
        lemma_split_state_absolute(p);
        let s0 = absolute(p);
        let l = s0.len() as int;
        assert(s =~= s0 + ("/"@ + w));
        lemma_split_state_prefix(s0, "/"@ + w, l);
        assert(p.last() == parts[parts.len() - 2]);
        assert(valid_seg(p.last()));
        let st = l - p.last().len();
        assert(s[l] == '/');
        lemma_join_ends(p);
        assert(s0.subrange(st, l) =~= join_spec(p).subrange(
            join_spec(p).len() - p.last().len(),
            join_spec(p).len() as int,
        ));
        assert(s.subrange(st, l) =~= s0.subrange(st, l));
        assert(split_state(s, l + 1) == (p.drop_last().push(p.last()), l + 1));
        assert(p.drop_last().push(p.last()) =~= p);
        lemma_split_state_run(s, l + 1, w.len() as int);
    }
}

/// Splitting the absolute path of some segments gives them back.
pub proof fn lemma_split_absolute(parts: Seq<Seq<char>>)
    requires
        valid_segs(parts),
    ensures
        split_spec(absolute(parts)) == parts,
{
    reveal_strlit("/");
    if parts.len() == 0 {
        assert(absolute(parts) =~= "/"@);
        assert("/"@.len() == 1 && "/"@[0] == '/');
        assert(split_state("/"@, 0).0 =~= Seq::<Seq<char>>::empty());
        assert(split_state("/"@, 1).0 =~= Seq::<Seq<char>>::empty());
        assert(split_state("/"@, 1).1 == 1);
        assert(split_spec("/"@) =~= parts);
    } else {
        lemma_split_state_absolute(parts);
        let s = absolute(parts);
        let w = parts.last();
        assert(valid_seg(parts[parts.len() - 1]));
        lemma_join_ends(parts);
        assert(s.subrange(s.len() - w.len(), s.len() as int) =~= join_spec(parts).subrange(
            join_spec(parts).len() - w.len(),
            join_spec(parts).len() as int,
        ));
        assert(parts.drop_last().push(w) =~= parts);
    }
}

} // verus!
