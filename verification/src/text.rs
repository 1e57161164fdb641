//! Character-sequence model of the string handling shared by the platform modules.

use vstd::prelude::*;

verus! {

/// The characters with the Unicode `White_Space` property (what `char::is_whitespace` accepts).
pub open spec fn is_white_space(c: char) -> bool {
    let u = c as u32;
    ||| 0x9 <= u <= 0xD
    ||| u == 0x20
    ||| u == 0x85
    ||| u == 0xA0
    ||| u == 0x1680
    ||| 0x2000 <= u <= 0x200A
    ||| u == 0x2028
    ||| u == 0x2029
    ||| u == 0x202F
    ||| u == 0x205F
    ||| u == 0x3000
}

/// `s` without its leading white space.
pub open spec fn trim_start(s: Seq<char>) -> Seq<char>
    decreases s.len(),
{
    if s.len() > 0 && is_white_space(s[0]) {
        trim_start(s.drop_first())
    } else {
        s
    }
}

/// `s` without its trailing white space.
pub open spec fn trim_end(s: Seq<char>) -> Seq<char>
    decreases s.len(),
{
    if s.len() > 0 && is_white_space(s.last()) {
        trim_end(s.drop_last())
    } else {
        s
    }
}

/// `s` without leading and trailing white space, as `str::trim` gives it.
pub open spec fn trim(s: Seq<char>) -> Seq<char> {
    trim_end(trim_start(s))
}

/// Whether `c` is Unicode white space.
pub fn is_whitespace_char(c: char) -> (r: bool)
    ensures
        r == is_white_space(c),
{
    let u: u32 = c as u32;
    (0x9 <= u && u <= 0xD) || u == 0x20 || u == 0x85 || u == 0xA0 || u == 0x1680 || (0x2000
        <= u && u <= 0x200A) || u == 0x2028 || u == 0x2029 || u == 0x202F || u == 0x205F || u
        == 0x3000
}

/// The characters of `s` without leading and trailing white space.
pub fn trim_chars(s: &[char]) -> (r: Vec<char>)
    ensures
        r@ == trim(s@),
{
    let n = s.len();
    let mut i: usize = 0;
    assert(s@.subrange(0, n as int) == s@);
    while i < n && is_whitespace_char(s[i])
        invariant
            i <= n == s@.len(),
            trim_start(s@) == trim_start(s@.subrange(i as int, n as int)),
        decreases n - i,
    {
        assert(s@.subrange(i as int, n as int).drop_first() == s@.subrange(i + 1, n as int));
        i = i + 1;
    }
    assert(trim_start(s@) == s@.subrange(i as int, n as int));
    let mut j: usize = n;
    while j > i && is_whitespace_char(s[j - 1])
        invariant
            i <= j <= n == s@.len(),
            trim(s@) == trim_end(s@.subrange(i as int, j as int)),
        decreases j - i,
    {
        assert(s@.subrange(i as int, j as int).drop_last() == s@.subrange(i as int, j - 1));
        j = j - 1;
    }
    assert(trim(s@) == s@.subrange(i as int, j as int));
    let mut r: Vec<char> = Vec::new();
    let mut k: usize = i;
    while k < j
        invariant
            i <= k <= j <= n == s@.len(),
            r@ == s@.subrange(i as int, k as int),
        decreases j - k,
    {
        r.push(s[k]);
        assert(s@.subrange(i as int, k + 1) == s@.subrange(i as int, k as int).push(s@[k as int]));
        k = k + 1;
    }
    r
}


/// The pieces of `s` between occurrences of `sep`, as `split(sep)` yields them
/// (there is always at least one piece).
pub open spec fn split_on<T>(s: Seq<T>, sep: T) -> Seq<Seq<T>>
    decreases s.len(),
{
    if s.len() == 0 {
        seq![Seq::empty()]
    } else {
        let p = split_on(s.drop_last(), sep);
        if s.last() == sep {
            p.push(Seq::empty())
        } else {
            p.update(p.len() - 1, p.last().push(s.last()))
        }
    }
}

/// The pieces `parts` with one `sep` between each two, as `join` builds it.
pub open spec fn join_with<T>(parts: Seq<Seq<T>>, sep: T) -> Seq<T>
    decreases parts.len(),
{
    if parts.len() == 0 {
        Seq::empty()
    } else if parts.len() == 1 {
        parts[0]
    } else {
        join_with(parts.drop_last(), sep).push(sep) + parts.last()
    }
}

/// `s` with every occurrence of `c` taken out.
pub open spec fn remove_all<T>(s: Seq<T>, c: T) -> Seq<T>
    decreases s.len(),
{
    if s.len() == 0 {
        s
    } else if s.last() == c {
        remove_all(s.drop_last(), c)
    } else {
        remove_all(s.drop_last(), c).push(s.last())
    }
}

/// The contents of each vector in `v`.
pub open spec fn contents<T>(v: Seq<Vec<T>>) -> Seq<Seq<T>> {
    v.map_values(|x: Vec<T>| x@)
}

/// The lexicographic order by code point, which is the order `str`'s `Ord` gives
/// (UTF-8 byte order and code-point order agree).
pub open spec fn chars_less(a: Seq<char>, b: Seq<char>) -> bool
    decreases a.len(),
{
    if a.len() == 0 {
        b.len() > 0
    } else if b.len() == 0 {
        false
    } else if a[0] != b[0] {
        a[0] < b[0]
    } else {
        chars_less(a.drop_first(), b.drop_first())
    }
}

/// No sequence comes before itself.
pub proof fn lemma_chars_less_irreflexive(a: Seq<char>)
    ensures
        !chars_less(a, a),
    decreases a.len(),
{
    if a.len() > 0 {
        lemma_chars_less_irreflexive(a.drop_first());
    }
}

/// Of two different sequences exactly one comes first.
pub proof fn lemma_chars_less_total(a: Seq<char>, b: Seq<char>)
    ensures
        a != b ==> chars_less(a, b) || chars_less(b, a),
        !(chars_less(a, b) && chars_less(b, a)),
    decreases a.len(),
{
    if a.len() > 0 && b.len() > 0 && a[0] == b[0] {
        lemma_chars_less_total(a.drop_first(), b.drop_first());
        if a.drop_first() == b.drop_first() {
            assert(a =~= seq![a[0]] + a.drop_first());
            assert(b =~= seq![b[0]] + b.drop_first());
        }
    } else if a.len() == 0 && b.len() == 0 {
        assert(a =~= b);
    }
}

/// The order is transitive.
pub proof fn lemma_chars_less_transitive(a: Seq<char>, b: Seq<char>, c: Seq<char>)
    requires
        chars_less(a, b),
        chars_less(b, c),
    ensures
        chars_less(a, c),
    decreases a.len(),
{
    if a.len() > 0 && b.len() > 0 && c.len() > 0 && a[0] == b[0] && b[0] == c[0] {
        lemma_chars_less_transitive(a.drop_first(), b.drop_first(), c.drop_first());
    }
}

/// Whether `a` comes before `b` in code-point order.
pub fn less_chars(a: &[char], b: &[char]) -> (r: bool)
    ensures
        r == chars_less(a@, b@),
{
    let mut i: usize = 0;
    assert(a@.skip(0) == a@ && b@.skip(0) == b@);
    while i < a.len() && i < b.len()
        invariant
            i <= a@.len(),
            i <= b@.len(),
            chars_less(a@, b@) == chars_less(a@.skip(i as int), b@.skip(i as int)),
        decreases a@.len() - i,
    {
        if a[i] != b[i] {
            return a[i] < b[i];
        }
        assert(a@.skip(i as int).drop_first() == a@.skip(i + 1));
        assert(b@.skip(i as int).drop_first() == b@.skip(i + 1));
        i = i + 1;
    }
    i < b.len()
}

/// The pieces of `s` between occurrences of `sep`.
pub fn split_chars(s: &[char], sep: char) -> (r: Vec<Vec<char>>)
    ensures
        contents(r@) == split_on(s@, sep),
{
    let mut done: Vec<Vec<char>> = Vec::new();
    let mut cur: Vec<char> = Vec::new();
    let mut i: usize = 0;
    assert(s@.take(0) =~= Seq::<char>::empty());
    assert(contents(done@).push(cur@) =~= split_on(s@.take(0), sep));
    while i < s.len()
        invariant
            i <= s@.len(),
            contents(done@).push(cur@) == split_on(s@.take(i as int), sep),
        decreases s@.len() - i,
    {
        assert(s@.take(i + 1).drop_last() == s@.take(i as int));
        let c = s[i];
        if c == sep {
            let ghost before = contents(done@);
            done.push(cur);
            cur = Vec::new();
            assert(contents(done@) =~= before.push(done@.last()@));
        } else {
            cur.push(c);
        }
        assert(contents(done@).push(cur@) =~= split_on(s@.take(i + 1), sep));
        i = i + 1;
    }
    let ghost before = contents(done@);
    done.push(cur);
    assert(contents(done@) =~= before.push(done@.last()@));
    assert(s@.take(s@.len() as int) == s@);
    done
}

/// The pieces of `s` between occurrences of the byte `sep`.
pub fn split_bytes(s: &[u8], sep: u8) -> (r: Vec<Vec<u8>>)
    ensures
        contents(r@) == split_on(s@, sep),
{
    let mut done: Vec<Vec<u8>> = Vec::new();
    let mut cur: Vec<u8> = Vec::new();
    let mut i: usize = 0;
    assert(s@.take(0) =~= Seq::<u8>::empty());
    assert(contents(done@).push(cur@) =~= split_on(s@.take(0), sep));
    while i < s.len()
        invariant
            i <= s@.len(),
            contents(done@).push(cur@) == split_on(s@.take(i as int), sep),
        decreases s@.len() - i,
    {
        assert(s@.take(i + 1).drop_last() == s@.take(i as int));
        let c = s[i];
        if c == sep {
            let ghost before = contents(done@);
            done.push(cur);
            cur = Vec::new();
            assert(contents(done@) =~= before.push(done@.last()@));
        } else {
            cur.push(c);
        }
        assert(contents(done@).push(cur@) =~= split_on(s@.take(i + 1), sep));
        i = i + 1;
    }
    let ghost before = contents(done@);
    done.push(cur);
    assert(contents(done@) =~= before.push(done@.last()@));
    assert(s@.take(s@.len() as int) == s@);
    done
}

/// The pieces in `parts` with `sep` between each two.
pub fn join_chars(parts: &Vec<Vec<char>>, sep: char) -> (r: Vec<char>)
    ensures
        r@ == join_with(contents(parts@), sep),
{
    let mut r: Vec<char> = Vec::new();
    let mut i: usize = 0;
    assert(contents(parts@).take(0) =~= Seq::<Seq<char>>::empty());
    while i < parts.len()
        invariant
            i <= parts@.len(),
            r@ == join_with(contents(parts@).take(i as int), sep),
        decreases parts@.len() - i,
    {
        let piece = &parts[i];
        assert(contents(parts@).take(i + 1).drop_last() =~= contents(parts@).take(i as int));
        if i > 0 {
            r.push(sep);
        }
        let ghost start = r@;
        let mut k: usize = 0;
        while k < piece.len()
            invariant
                k <= piece@.len(),
                r@ == start + piece@.take(k as int),
            decreases piece@.len() - k,
        {
            r.push(piece[k]);
            assert(piece@.take(k + 1) == piece@.take(k as int).push(piece@[k as int]));
            k = k + 1;
        }
        assert(piece@.take(piece@.len() as int) == piece@);
        assert(contents(parts@)[i as int] == piece@);
        if i == 0 {
            assert(contents(parts@).take(1) =~= seq![piece@]);
        }
        i = i + 1;
    }
    assert(contents(parts@).take(parts@.len() as int) == contents(parts@));
    r
}

/// `s` with every occurrence of `c` taken out.
pub fn remove_char(s: &[char], c: char) -> (r: Vec<char>)
    ensures
        r@ == remove_all(s@, c),
{
    let mut r: Vec<char> = Vec::new();
    let mut i: usize = 0;
    assert(s@.take(0) =~= Seq::<char>::empty());
    while i < s.len()
        invariant
            i <= s@.len(),
            r@ == remove_all(s@.take(i as int), c),
        decreases s@.len() - i,
    {
        assert(s@.take(i + 1).drop_last() == s@.take(i as int));
        if s[i] != c {
            r.push(s[i]);
        }
        i = i + 1;
    }
    assert(s@.take(s@.len() as int) == s@);
    r
}


/// Every piece of `p` comes before every later one, so no piece occurs twice.
pub open spec fn strictly_sorted(p: Seq<Seq<char>>) -> bool {
    forall|i: int, j: int| 0 <= i < j < p.len() ==> chars_less(#[trigger] p[i], #[trigger] p[j])
}

/// The members of `s` in ascending code-point order, each once.
pub open spec fn sorted_listing(s: Set<Seq<char>>) -> Seq<Seq<char>> {
    choose|p: Seq<Seq<char>>| strictly_sorted(p) && p.to_set() == s
}

/// A set has at most one ascending listing without repetitions.
pub proof fn lemma_sorted_listing_unique(p: Seq<Seq<char>>, q: Seq<Seq<char>>)
    requires
        strictly_sorted(p),
        strictly_sorted(q),
        p.to_set() == q.to_set(),
    ensures
        p == q,
    decreases p.len(),
{
    if p.len() == 0 || q.len() == 0 {
        if q.len() > 0 {
            assert(q.to_set().contains(q[0]));
        }
        if p.len() > 0 {
            assert(p.to_set().contains(p[0]));
        }
        assert(p =~= q);
    } else {
        assert(q.to_set().contains(p[0]));
        assert(p.to_set().contains(q[0]));
        let j = choose|j: int| 0 <= j < q.len() && q[j] == p[0];
        let i = choose|i: int| 0 <= i < p.len() && p[i] == q[0];
        if i > 0 && j > 0 {
            assert(chars_less(p[0], p[i]));
            assert(chars_less(q[0], q[j]));
            lemma_chars_less_total(p[0], q[0]);
        }
        assert(p[0] == q[0]);
        let p1 = p.drop_first();
        let q1 = q.drop_first();
        assert forall|x: Seq<char>| p1.contains(x) implies q1.contains(x) by {
            let k = choose|k: int| 0 <= k < p1.len() && p1[k] == x;
            assert(p[k + 1] == x);
            assert(chars_less(p[0], x));
            lemma_chars_less_irreflexive(x);
            assert(q.to_set().contains(x));
            let m = choose|m: int| 0 <= m < q.len() && q[m] == x;
            assert(m != 0);
            assert(q1[m - 1] == x);
        }
        assert forall|x: Seq<char>| q1.contains(x) implies p1.contains(x) by {
            let k = choose|k: int| 0 <= k < q1.len() && q1[k] == x;
            assert(q[k + 1] == x);
            assert(chars_less(q[0], x));
            lemma_chars_less_irreflexive(x);
            assert(p.to_set().contains(x));
            let m = choose|m: int| 0 <= m < p.len() && p[m] == x;
            assert(m != 0);
            assert(p1[m - 1] == x);
        }
        assert(p1.to_set() =~= q1.to_set());
        lemma_sorted_listing_unique(p1, q1);
        assert(p =~= seq![p[0]] + p1);
        assert(q =~= seq![q[0]] + q1);
    }
}

/// A strictly sorted sequence is the sorted listing of its members.
pub proof fn lemma_sorted_listing_of(p: Seq<Seq<char>>)
    requires
        strictly_sorted(p),
    ensures
        sorted_listing(p.to_set()) == p,
{
    let q = sorted_listing(p.to_set());
    assert(strictly_sorted(q) && q.to_set() == p.to_set());
    lemma_sorted_listing_unique(q, p);
}

/// Adds `x` to the strictly sorted `parts`, unless it is there already.
pub fn insert_sorted(parts: &mut Vec<Vec<char>>, x: Vec<char>)
    requires
        strictly_sorted(contents(old(parts)@)),
    ensures
        strictly_sorted(contents(final(parts)@)),
        contents(final(parts)@).to_set() == contents(old(parts)@).to_set().insert(x@),
{
    let ghost before = contents(parts@);
    let mut k: usize = 0;
    while k < parts.len() && less_chars(parts[k].as_slice(), x.as_slice())
        invariant
            k <= parts@.len(),
            contents(parts@) == before,
            forall|i: int| 0 <= i < k ==> chars_less(#[trigger] before[i], x@),
        decreases parts@.len() - k,
    {
        k = k + 1;
    }
    if k < parts.len() && !less_chars(x.as_slice(), parts[k].as_slice()) {
        proof {
            lemma_chars_less_total(before[k as int], x@);
            assert(before[k as int] == x@);
            assert(before.to_set().contains(x@));
            assert(before.to_set().insert(x@) =~= before.to_set());
        }
        return;
    }
    let ghost xv = x@;
    parts.insert(k, x);
    let ghost after = contents(parts@);
    assert(after =~= before.insert(k as int, xv));
    proof {
        if k < before.len() {
            lemma_chars_less_total(before[k as int], xv);
        }
        assert forall|i: int, j: int| 0 <= i < j < after.len() implies chars_less(
            #[trigger] after[i],
            #[trigger] after[j],
        ) by {
            if j < k {
                assert(after[i] == before[i] && after[j] == before[j]);
            } else if j == k {
                assert(after[j] == xv);
            } else if i == k {
                assert(after[j] == before[j - 1]);
                if j - 1 > k {
                    assert(chars_less(before[k as int], before[j - 1]));
                    lemma_chars_less_transitive(xv, before[k as int], before[j - 1]);
                }
            } else if i < k {
                assert(after[j] == before[j - 1]);
                assert(chars_less(before[i], xv));
                if j - 1 == k as int {
                    lemma_chars_less_transitive(before[i], xv, before[j - 1]);
                } else {
                    assert(chars_less(before[k as int], before[j - 1]));
                    lemma_chars_less_transitive(xv, before[k as int], before[j - 1]);
                    lemma_chars_less_transitive(before[i], xv, before[j - 1]);
                }
            } else {
                assert(after[i] == before[i - 1] && after[j] == before[j - 1]);
            }
        }
        assert forall|y: Seq<char>| after.contains(y) <==> before.to_set().insert(xv).contains(y) by {
            if after.contains(y) {
                let m = choose|m: int| 0 <= m < after.len() && after[m] == y;
                if m < k {
                    assert(before[m] == y);
                } else if m > k {
                    assert(before[m - 1] == y);
                }
            }
            if before.contains(y) {
                let m = choose|m: int| 0 <= m < before.len() && before[m] == y;
                if m < k {
                    assert(after[m] == y);
                } else {
                    assert(after[m + 1] == y);
                }
            }
            if y == xv {
                assert(after[k as int] == y);
            }
        }
        assert(after.to_set() =~= before.to_set().insert(xv));
    }
}


/// What `str::to_lowercase` gives for a string with the characters `s`.
pub uninterp spec fn lowercase(s: Seq<char>) -> Seq<char>;

/// The ASCII lowercase of `c`: `A`..`Z` become `a`..`z`, everything else stays.
pub open spec fn ascii_lower_char(c: char) -> char {
    if 'A' <= c <= 'Z' {
        ((c as u32 + 32) as u32) as char
    } else {
        c
    }
}

/// Calls `str::to_lowercase`. The contract names its result `lowercase` of the input's
/// characters. Of that result it states what the documentation gives plainly: each
/// character maps to one or more characters, so only the empty text maps to the empty
/// text, and an ASCII text is lowercased letter by letter. The Unicode case mapping beyond
/// ASCII is not restated here.
#[verifier::external_body]
pub(crate) fn str_to_lowercase(s: &str) -> (r: String)
    ensures
        r@ == lowercase(s@),
        r@.len() == 0 <==> s@.len() == 0,
        vstd::utf8::is_ascii_chars(s@) ==> r@ == ascii_lowercase(s@),
{
    s.to_lowercase()
}

/// The characters of `s`, in order.
pub fn chars_of(s: &str) -> (r: Vec<char>)
    ensures
        r@ == s@,
{
    broadcast use vstd::string::axiom_spec_iter, vstd::string::next_postcondition;

    let mut it = s.chars();
    let mut v: Vec<char> = Vec::new();
    assert(v@ + vstd::std_specs::iter::IteratorSpec::remaining(&it) =~= s@);
    loop
        invariant_except_break
            v@ + vstd::std_specs::iter::IteratorSpec::remaining(&it) == s@,
            vstd::std_specs::iter::IteratorSpec::obeys_prophetic_iter_laws(&it),
            vstd::std_specs::iter::IteratorSpec::decrease(&it) is Some,
        ensures
            v@ == s@,
        decreases vstd::std_specs::iter::IteratorSpec::decrease(&it)->0,
    {
        match it.next() {
            Some(c) => {
                let ghost before = v@;
                v.push(c);
                assert(v@ + vstd::std_specs::iter::IteratorSpec::remaining(&it) =~= before + seq![c] + vstd::std_specs::iter::IteratorSpec::remaining(&it));
            },
            None => {
                assert(v@ + Seq::<char>::empty() =~= v@);
                break ;
            },
        }
    }
    v
}

/// The string made of the characters `v`, in order (`String: FromIterator<&char>`).
#[verifier::external_body]
pub(crate) fn string_of(v: &[char]) -> (r: String)
    ensures
        r@ == v@,
{
    v.iter().collect()
}


/// The texts of `items` that are present and not empty, in order.
pub open spec fn present_parts(items: Seq<Option<Seq<char>>>) -> Seq<Seq<char>>
    decreases items.len(),
{
    if items.len() == 0 {
        Seq::empty()
    } else {
        let before = present_parts(items.drop_last());
        match items.last() {
            Some(t) => if t.len() > 0 {
                before.push(t)
            } else {
                before
            },
            None => before,
        }
    }
}

/// The texts of an optional string.
pub open spec fn opt_text(o: Option<String>) -> Option<Seq<char>> {
    match o {
        Some(s) => Some(s@),
        None => None,
    }
}

/// The texts of optional strings.
pub open spec fn opt_texts(v: Seq<Option<String>>) -> Seq<Option<Seq<char>>> {
    v.map_values(|o: Option<String>| opt_text(o))
}

/// The texts of strings.
pub open spec fn texts(v: Seq<String>) -> Seq<Seq<char>> {
    v.map_values(|s: String| s@)
}

/// The characters of each item of `items` that is present and not empty, in order.
pub fn present_parts_of(items: &Vec<Option<String>>) -> (r: Vec<Vec<char>>)
    ensures
        contents(r@) == present_parts(opt_texts(items@)),
{
    let mut parts: Vec<Vec<char>> = Vec::new();
    let mut i: usize = 0;
    assert(opt_texts(items@).take(0) =~= Seq::<Option<Seq<char>>>::empty());
    assert(contents(parts@) =~= Seq::<Seq<char>>::empty());
    while i < items.len()
        invariant
            i <= items@.len(),
            contents(parts@) == present_parts(opt_texts(items@).take(i as int)),
        decreases items@.len() - i,
    {
        assert(opt_texts(items@).take(i + 1).drop_last() =~= opt_texts(items@).take(i as int));
        assert(opt_texts(items@).take(i + 1).last() == opt_text(items@[i as int]));
        match &items[i] {
            Some(s) => {
                let cs = chars_of(s.as_str());
                if cs.len() > 0 {
                    let ghost before = contents(parts@);
                    parts.push(cs);
                    assert(contents(parts@) =~= before.push(s@));
                }
            },
            None => {},
        }
        i = i + 1;
    }
    assert(opt_texts(items@).take(items@.len() as int) == opt_texts(items@));
    parts
}

/// The texts in `s` that are not empty, in order.
pub open spec fn non_empty(s: Seq<Seq<char>>) -> Seq<Seq<char>>
    decreases s.len(),
{
    if s.len() == 0 {
        s
    } else if s.last().len() > 0 {
        non_empty(s.drop_last()).push(s.last())
    } else {
        non_empty(s.drop_last())
    }
}

/// `x` put into its place in the strictly sorted `p`, unless it is there already.
pub open spec fn sorted_insert(p: Seq<Seq<char>>, x: Seq<char>) -> Seq<Seq<char>>
    decreases p.len(),
{
    if p.len() == 0 {
        seq![x]
    } else if chars_less(p[0], x) {
        seq![p[0]] + sorted_insert(p.drop_first(), x)
    } else if p[0] == x {
        p
    } else {
        seq![x] + p
    }
}

pub proof fn lemma_sorted_insert(p: Seq<Seq<char>>, x: Seq<char>)
    requires
        strictly_sorted(p),
    ensures
        strictly_sorted(sorted_insert(p, x)),
        sorted_insert(p, x).to_set() == p.to_set().insert(x),
    decreases p.len(),
{
    let r = sorted_insert(p, x);
    if p.len() == 0 {
        assert(r.to_set() =~= p.to_set().insert(x)) by {
            assert forall|y: Seq<char>| r.contains(y) <==> p.to_set().insert(x).contains(y) by {
                if y == x {
                    assert(r[0] == y);
                }
            }
        }
    } else if chars_less(p[0], x) {
        let q = p.drop_first();
        assert(strictly_sorted(q)) by {
            assert forall|i: int, j: int| 0 <= i < j < q.len() implies chars_less(
                #[trigger] q[i],
                #[trigger] q[j],
            ) by {
                assert(q[i] == p[i + 1] && q[j] == p[j + 1]);
            }
        }
        lemma_sorted_insert(q, x);
        let rq = sorted_insert(q, x);
        assert(r == seq![p[0]] + rq);
        assert forall|y: Seq<char>| rq.contains(y) implies chars_less(p[0], y) by {
            assert(rq.to_set().contains(y));
            if y != x {
                let k = choose|k: int| 0 <= k < q.len() && q[k] == y;
                assert(p[k + 1] == y);
            }
        }
        assert forall|i: int, j: int| 0 <= i < j < r.len() implies chars_less(
            #[trigger] r[i],
            #[trigger] r[j],
        ) by {
            if i == 0 {
                assert(r[j] == rq[j - 1]);
                assert(rq.contains(rq[j - 1]));
            } else {
                assert(r[i] == rq[i - 1] && r[j] == rq[j - 1]);
            }
        }
        assert forall|y: Seq<char>| r.contains(y) <==> p.to_set().insert(x).contains(y) by {
            if r.contains(y) {
                let k = choose|k: int| 0 <= k < r.len() && r[k] == y;
                if k == 0 {
                    assert(p[0] == y);
                } else {
                    assert(rq[k - 1] == y);
                    assert(rq.to_set().contains(y));
                    if y != x {
                        let m = choose|m: int| 0 <= m < q.len() && q[m] == y;
                        assert(p[m + 1] == y);
                    }
                }
            }
            if p.contains(y) {
                let k = choose|k: int| 0 <= k < p.len() && p[k] == y;
                if k == 0 {
                    assert(r[0] == y);
                } else {
                    assert(q[k - 1] == y);
                    assert(rq.to_set().contains(y));
                    let m = choose|m: int| 0 <= m < rq.len() && rq[m] == y;
                    assert(r[m + 1] == y);
                }
            }
            if y == x {
                assert(rq.to_set().contains(y));
                let m = choose|m: int| 0 <= m < rq.len() && rq[m] == y;
                assert(r[m + 1] == y);
            }
        }
        assert(r.to_set() =~= p.to_set().insert(x));
    } else if p[0] == x {
        assert(p.to_set().contains(x));
        assert(p.to_set().insert(x) =~= p.to_set());
    } else {
        lemma_chars_less_total(p[0], x);
        assert forall|i: int, j: int| 0 <= i < j < r.len() implies chars_less(
            #[trigger] r[i],
            #[trigger] r[j],
        ) by {
            if i == 0 {
                assert(r[j] == p[j - 1]);
                if j - 1 > 0 {
                    lemma_chars_less_transitive(x, p[0], p[j - 1]);
                }
            } else {
                assert(r[i] == p[i - 1] && r[j] == p[j - 1]);
            }
        }
        assert forall|y: Seq<char>| r.contains(y) <==> p.to_set().insert(x).contains(y) by {
            if r.contains(y) {
                let k = choose|k: int| 0 <= k < r.len() && r[k] == y;
                if k > 0 {
                    assert(p[k - 1] == y);
                }
            }
            if p.contains(y) {
                let k = choose|k: int| 0 <= k < p.len() && p[k] == y;
                assert(r[k + 1] == y);
            }
            if y == x {
                assert(r[0] == y);
            }
        }
        assert(r.to_set() =~= p.to_set().insert(x));
    }
}

/// Every finite set of texts given as the members of a sequence has an ascending listing
/// without repetitions.
pub proof fn lemma_sorted_listing_exists(xs: Seq<Seq<char>>)
    ensures
        strictly_sorted(sorted_listing(xs.to_set())),
        sorted_listing(xs.to_set()).to_set() == xs.to_set(),
    decreases xs.len(),
{
    if xs.len() == 0 {
        let e = Seq::<Seq<char>>::empty();
        assert(e.to_set() =~= xs.to_set());
        assert(strictly_sorted(e));
    } else {
        let ys = xs.drop_last();
        lemma_sorted_listing_exists(ys);
        let p = sorted_listing(ys.to_set());
        lemma_sorted_insert(p, xs.last());
        let r = sorted_insert(p, xs.last());
        assert forall|y: Seq<char>| xs.contains(y) <==> ys.to_set().insert(xs.last()).contains(y) by {
            if xs.contains(y) {
                let k = choose|k: int| 0 <= k < xs.len() && xs[k] == y;
                if k < xs.len() - 1 {
                    assert(ys[k] == y);
                }
            }
            if ys.contains(y) {
                let k = choose|k: int| 0 <= k < ys.len() && ys[k] == y;
                assert(xs[k] == y);
            }
        }
        assert(xs.to_set() =~= ys.to_set().insert(xs.last()));
        assert(strictly_sorted(r) && r.to_set() == xs.to_set());
    }
}

/// The non-empty texts of `s` are the members of `s` other than the empty text.
pub proof fn lemma_non_empty_members(s: Seq<Seq<char>>)
    ensures
        non_empty(s).to_set() == s.to_set().remove(Seq::empty()),
    decreases s.len(),
{
    if s.len() > 0 {
        lemma_non_empty_members(s.drop_last());
        let d = s.drop_last();
        let n = non_empty(s);
        let nd = non_empty(d);
        assert forall|y: Seq<char>| n.contains(y) <==> s.to_set().remove(Seq::empty()).contains(y) by {
            assert(nd.to_set().contains(y) == nd.contains(y));
            if n.contains(y) {
                let k = choose|k: int| 0 <= k < n.len() && n[k] == y;
                if s.last().len() > 0 && k == n.len() - 1 {
                    assert(s[s.len() - 1] == y);
                    assert(y.len() > 0);
                } else {
                    assert(nd[k] == y);
                    assert(d.to_set().remove(Seq::empty()).contains(y));
                    let m = choose|m: int| 0 <= m < d.len() && d[m] == y;
                    assert(s[m] == y);
                }
            }
            if s.contains(y) && y != Seq::<char>::empty() {
                let k = choose|k: int| 0 <= k < s.len() && s[k] == y;
                if k == s.len() - 1 {
                    assert(y.len() > 0) by {
                        if y.len() == 0 {
                            assert(y =~= Seq::<char>::empty());
                        }
                    }
                    assert(n[n.len() - 1] == y);
                } else {
                    assert(d[k] == y);
                    assert(d.to_set().remove(Seq::empty()).contains(y));
                    let m = choose|m: int| 0 <= m < nd.len() && nd[m] == y;
                    assert(n[m] == y);
                }
            }
        }
        assert(n.to_set() =~= s.to_set().remove(Seq::empty()));
    } else {
        assert(non_empty(s).to_set() =~= s.to_set().remove(Seq::empty()));
    }
}


/// After taking out every `c`, no `c` is left.
pub proof fn lemma_remove_all_absent<T>(s: Seq<T>, c: T)
    ensures
        !remove_all(s, c).contains(c),
    decreases s.len(),
{
    if s.len() > 0 {
        lemma_remove_all_absent(s.drop_last(), c);
        let r = remove_all(s, c);
        let rd = remove_all(s.drop_last(), c);
        if r.contains(c) {
            let k = choose|k: int| 0 <= k < r.len() && r[k] == c;
            if s.last() != c && k == r.len() - 1 {
            } else {
                assert(rd[k] == c);
            }
        }
    }
}


/// `s` with each ASCII capital letter lowercased.
pub open spec fn ascii_lowercase(s: Seq<char>) -> Seq<char> {
    s.map_values(|c: char| ascii_lower_char(c))
}

/// An ASCII character that ASCII lowercasing leaves as it is.
pub open spec fn is_lower_ascii(c: char) -> bool {
    '\0' <= c <= '\u{7f}' && !('A' <= c <= 'Z')
}

pub proof fn lemma_split_on_nonempty<T>(s: Seq<T>, sep: T)
    ensures
        split_on(s, sep).len() >= 1,
    decreases s.len(),
{
    if s.len() > 0 {
        lemma_split_on_nonempty(s.drop_last(), sep);
    }
}

/// Every character of a piece of `s` is a character of `s` other than the separator.
pub proof fn lemma_split_on_chars<T>(s: Seq<T>, sep: T)
    ensures
        forall|k: int, d: T|
            0 <= k < split_on(s, sep).len() && #[trigger] split_on(s, sep)[k].contains(d) ==> d
                != sep && s.contains(d),
    decreases s.len(),
{
    if s.len() > 0 {
        let d0 = s.drop_last();
        lemma_split_on_chars(d0, sep);
        lemma_split_on_nonempty(d0, sep);
        let p = split_on(d0, sep);
        let q = split_on(s, sep);
        assert forall|k: int, d: T| 0 <= k < q.len() && #[trigger] q[k].contains(d) implies d
            != sep && s.contains(d) by {
            let m = choose|m: int| 0 <= m < q[k].len() && q[k][m] == d;
            if s.last() == sep {
                if k < p.len() {
                    assert(q[k] == p[k]);
                    assert(p[k].contains(d));
                    let j = choose|j: int| 0 <= j < d0.len() && d0[j] == d;
                    assert(s[j] == d);
                } else {
                    assert(q[k].len() == 0);
                }
            } else if k < p.len() - 1 {
                assert(q[k] == p[k]);
                assert(p[k].contains(d));
                let j = choose|j: int| 0 <= j < d0.len() && d0[j] == d;
                assert(s[j] == d);
            } else {
                assert(q[k] == p.last().push(s.last()));
                if m < p.last().len() {
                    assert(p[p.len() - 1].contains(d)) by {
                        assert(p[p.len() - 1][m] == d);
                    }
                    let j = choose|j: int| 0 <= j < d0.len() && d0[j] == d;
                    assert(s[j] == d);
                } else {
                    assert(d == s.last());
                    assert(s[s.len() - 1] == d);
                }
            }
        }
    }
}

/// A text without the separator is a single piece.
pub proof fn lemma_split_on_single<T>(s: Seq<T>, sep: T)
    requires
        !s.contains(sep),
    ensures
        split_on(s, sep) == seq![s],
    decreases s.len(),
{
    if s.len() == 0 {
        assert(s =~= Seq::<T>::empty());
        assert(split_on(s, sep) =~= seq![s]);
    } else {
        let d = s.drop_last();
        assert(!d.contains(sep)) by {
            if d.contains(sep) {
                let j = choose|j: int| 0 <= j < d.len() && d[j] == sep;
                assert(s[j] == sep);
            }
        }
        lemma_split_on_single(d, sep);
        assert(s.last() != sep) by {
            assert(s[s.len() - 1] == s.last());
        }
        assert(d.push(s.last()) =~= s);
        assert(split_on(s, sep) =~= seq![s]);
    }
}

/// The pieces of `x`, the separator, `y` are the pieces of `x` followed by those of `y`.
pub proof fn lemma_split_on_concat<T>(x: Seq<T>, y: Seq<T>, sep: T)
    ensures
        split_on(x.push(sep) + y, sep) == split_on(x, sep) + split_on(y, sep),
    decreases y.len(),
{
    if y.len() == 0 {
        assert(x.push(sep) + y =~= x.push(sep));
        assert(x.push(sep).drop_last() =~= x);
        assert(split_on(y, sep) =~= seq![Seq::<T>::empty()]);
        assert(split_on(x.push(sep), sep) =~= split_on(x, sep) + split_on(y, sep));
    } else {
        lemma_split_on_concat(x, y.drop_last(), sep);
        lemma_split_on_nonempty(y.drop_last(), sep);
        let s = x.push(sep) + y;
        assert(s.drop_last() =~= x.push(sep) + y.drop_last());
        assert(s.last() == y.last());
        let a = split_on(x, sep);
        let b = split_on(y.drop_last(), sep);
        if y.last() == sep {
            assert(split_on(s, sep) =~= a + b.push(Seq::<T>::empty()));
        } else {
            assert((a + b).last() == b.last());
            assert(split_on(s, sep) =~= a + b.update(b.len() - 1, b.last().push(y.last())));
        }
    }
}

/// Trimming keeps only characters of the text.
pub proof fn lemma_trim_chars(x: Seq<char>)
    ensures
        forall|d: char| trim(x).contains(d) ==> x.contains(d),
{
    lemma_trim_start_is_suffix(x);
    lemma_trim_end_is_prefix(trim_start(x));
    let s = trim_start(x);
    let e = trim(x);
    assert forall|d: char| e.contains(d) implies x.contains(d) by {
        let m = choose|m: int| 0 <= m < e.len() && e[m] == d;
        assert(s[m] == d);
        assert(x[x.len() - s.len() + m] == d);
    }
}

/// `trim_start(x)` is a suffix of `x`.
pub proof fn lemma_trim_start_is_suffix(x: Seq<char>)
    ensures
        trim_start(x).len() <= x.len(),
        trim_start(x) == x.skip(x.len() - trim_start(x).len()),
        trim_start(x).len() > 0 ==> !is_white_space(trim_start(x)[0]),
    decreases x.len(),
{
    if x.len() > 0 && is_white_space(x[0]) {
        lemma_trim_start_is_suffix(x.drop_first());
        assert(x.drop_first().skip(x.drop_first().len() - trim_start(x).len()) =~= x.skip(
            x.len() - trim_start(x).len(),
        ));
    } else {
        assert(x.skip(0) =~= x);
    }
}

/// `trim_end(x)` is a prefix of `x`.
pub proof fn lemma_trim_end_is_prefix(x: Seq<char>)
    ensures
        trim_end(x).len() <= x.len(),
        trim_end(x) == x.take(trim_end(x).len() as int),
        trim_end(x).len() > 0 ==> !is_white_space(trim_end(x).last()),
    decreases x.len(),
{
    if x.len() > 0 && is_white_space(x.last()) {
        lemma_trim_end_is_prefix(x.drop_last());
        assert(x.drop_last().take(trim_end(x).len() as int) =~= x.take(trim_end(x).len() as int));
    } else {
        assert(x.take(x.len() as int) =~= x);
    }
}

/// Trimming a trimmed text changes nothing.
pub proof fn lemma_trim_idempotent(x: Seq<char>)
    ensures
        trim(trim(x)) == trim(x),
{
    let s = trim_start(x);
    let e = trim(x);
    lemma_trim_start_is_suffix(x);
    lemma_trim_end_is_prefix(s);
    if e.len() > 0 {
        assert(e[0] == s[0]);
        assert(trim_start(e) == e);
        assert(trim_end(e) == e);
    } else {
        assert(trim_start(e) == e);
        assert(trim_end(e) == e);
    }
}

/// Taking out `c` keeps only characters of the text other than `c`.
pub proof fn lemma_remove_all_chars<T>(s: Seq<T>, c: T)
    ensures
        forall|d: T| remove_all(s, c).contains(d) ==> s.contains(d) && d != c,
    decreases s.len(),
{
    if s.len() > 0 {
        lemma_remove_all_chars(s.drop_last(), c);
        let r = remove_all(s, c);
        let rd = remove_all(s.drop_last(), c);
        assert forall|d: T| r.contains(d) implies s.contains(d) && d != c by {
            let k = choose|k: int| 0 <= k < r.len() && r[k] == d;
            if s.last() != c && k == r.len() - 1 {
                assert(s[s.len() - 1] == d);
            } else {
                if s.last() == c {
                    assert(r == rd);
                } else {
                    assert(r == rd.push(s.last()));
                }
                assert(rd[k] == d);
                assert(rd.contains(d));
                assert(s.drop_last().contains(d));
                let j = choose|j: int| 0 <= j < s.drop_last().len() && s.drop_last()[j] == d;
                assert(s[j] == d);
            }
        }
    }
}

/// Taking out a value that does not occur changes nothing.
pub proof fn lemma_remove_all_none<T>(s: Seq<T>, c: T)
    requires
        !s.contains(c),
    ensures
        remove_all(s, c) == s,
    decreases s.len(),
{
    if s.len() > 0 {
        let d = s.drop_last();
        assert(!d.contains(c)) by {
            if d.contains(c) {
                let j = choose|j: int| 0 <= j < d.len() && d[j] == c;
                assert(s[j] == c);
            }
        }
        lemma_remove_all_none(d, c);
        assert(s.last() != c) by {
            assert(s[s.len() - 1] == s.last());
        }
        assert(d.push(s.last()) =~= s);
    }
}

/// A joined text holds only the separator and characters of the pieces.
pub proof fn lemma_join_with_chars<T>(parts: Seq<Seq<T>>, sep: T)
    ensures
        forall|d: T|
            join_with(parts, sep).contains(d) ==> d == sep || exists|k: int|
                0 <= k < parts.len() && (#[trigger] parts[k]).contains(d),
    decreases parts.len(),
{
    if parts.len() > 1 {
        lemma_join_with_chars(parts.drop_last(), sep);
        let p = parts.drop_last();
        let j = join_with(p, sep);
        assert forall|d: T| join_with(parts, sep).contains(d) implies d == sep || exists|k: int|
            0 <= k < parts.len() && (#[trigger] parts[k]).contains(d) by {
            let m = choose|m: int|
                0 <= m < join_with(parts, sep).len() && join_with(parts, sep)[m] == d;
            if m < j.len() {
                assert(j[m] == d);
                assert(j.contains(d));
                if d != sep {
                    let k = choose|k: int| 0 <= k < p.len() && (#[trigger] p[k]).contains(d);
                    assert(parts[k] == p[k]);
                }
            } else if m > j.len() {
                assert(parts.last()[m - j.len() - 1] == d);
                assert(parts[parts.len() - 1].contains(d));
            }
        }
    } else if parts.len() == 1 {
        assert forall|d: T| join_with(parts, sep).contains(d) implies d == sep || exists|k: int|
            0 <= k < parts.len() && (#[trigger] parts[k]).contains(d) by {
            assert(parts[0].contains(d));
        }
    }
}

/// ASCII lowercasing of joined texts is the joined ASCII lowercasing.
pub proof fn lemma_ascii_lowercase_concat(x: Seq<char>, y: Seq<char>)
    ensures
        ascii_lowercase(x + y) == ascii_lowercase(x) + ascii_lowercase(y),
{
    assert(ascii_lowercase(x + y) =~= ascii_lowercase(x) + ascii_lowercase(y));
}

/// The ASCII lowercasing of an ASCII text consists of lowercase ASCII characters.
pub proof fn lemma_ascii_lowercase_chars(s: Seq<char>)
    requires
        vstd::utf8::is_ascii_chars(s),
    ensures
        forall|d: char| ascii_lowercase(s).contains(d) ==> is_lower_ascii(d),
{
    assert forall|d: char| ascii_lowercase(s).contains(d) implies is_lower_ascii(d) by {
        let m = choose|m: int| 0 <= m < ascii_lowercase(s).len() && ascii_lowercase(s)[m] == d;
        assert('\0' <= s[m] <= '\u{7f}');
    }
}

/// ASCII lowercasing leaves a text of lowercase ASCII characters as it is.
pub proof fn lemma_ascii_lowercase_fixed(s: Seq<char>)
    requires
        forall|d: char| s.contains(d) ==> is_lower_ascii(d),
    ensures
        ascii_lowercase(s) == s,
        vstd::utf8::is_ascii_chars(s),
{
    assert forall|i: int| 0 <= i < s.len() implies is_lower_ascii(#[trigger] s[i]) by {
        assert(s.contains(s[i]));
    }
    assert(ascii_lowercase(s) =~= s);
}


/// The order compares from the first character: where the first characters differ they
/// decide, and where they agree the rest decides.
pub proof fn law_chars_less_from_the_front(a: Seq<char>, b: Seq<char>)
    requires
        a.len() > 0,
        b.len() > 0,
    ensures
        a[0] != b[0] ==> chars_less(a, b) == (a[0] < b[0]),
        a[0] == b[0] ==> chars_less(a, b) == chars_less(a.drop_first(), b.drop_first()),
{
}

/// A proper prefix comes first, and where two texts first differ, the smaller character
/// puts its text first.
pub proof fn law_chars_less_first_difference(a: Seq<char>, b: Seq<char>, k: int)
    ensures
        a.len() < b.len() && a == b.take(a.len() as int) ==> chars_less(a, b),
        0 <= k < a.len() && k < b.len() && a.take(k) == b.take(k) && a[k] < b[k] ==> chars_less(a, b),
    decreases a.len(),
{
    if a.len() > 0 && b.len() > 0 {
        if a.len() < b.len() && a == b.take(a.len() as int) {
            assert(a[0] == b[0]);
            assert(a.drop_first() == b.drop_first().take(a.drop_first().len() as int));
            law_chars_less_first_difference(a.drop_first(), b.drop_first(), k - 1);
        }
        if 0 <= k < a.len() && k < b.len() && a.take(k) == b.take(k) && a[k] < b[k] {
            if k > 0 {
                assert(a[0] == a.take(k)[0] && b[0] == b.take(k)[0]);
                assert(a.drop_first().take(k - 1) =~= b.drop_first().take(k - 1)) by {
                    assert forall|i: int| 0 <= i < k - 1 implies a.drop_first()[i] == b.drop_first()[i] by {
                        assert(a.take(k)[i + 1] == b.take(k)[i + 1]);
                    }
                }
                law_chars_less_first_difference(a.drop_first(), b.drop_first(), k - 1);
                assert(chars_less(a.drop_first(), b.drop_first()));
            }
        }
    }
}

} // verus!
