//! Character-level pieces: whitespace and trimming, the `---` fences that
//! delimit a frontmatter block, decimals, and building strings.

use vstd::prelude::*;

verus! {

broadcast use vstd::string::group_string_axioms;

/// `char::is_whitespace`: the characters with Unicode's `White_Space`
/// property.
pub open spec fn is_ws(c: char) -> bool {
    let u = c as u32;
    ||| 0x09 <= u <= 0x0D
    ||| u == 0x20
    ||| u == 0x85
    ||| u == 0xA0
    ||| u == 0x1680
    ||| 0x2000 <= u <= 0x200A
    ||| u == 0x2028
    ||| u == 0x2029
    ||| u == 0x202F
    ||| u == 0x205F
    ||| u == 0x3000
}

/// Whether `c` is whitespace.
pub fn is_whitespace(c: char) -> (r: bool)
    ensures
        r == is_ws(c),
{
    let u = c as u32;
    (0x09 <= u && u <= 0x0D) || u == 0x20 || u == 0x85 || u == 0xA0 || u == 0x1680 || (0x2000
        <= u && u <= 0x200A) || u == 0x2028 || u == 0x2029 || u == 0x202F || u == 0x205F || u
        == 0x3000
}

/// `str::trim_end`: the text without its trailing whitespace.
pub open spec fn trim_end(s: Seq<char>) -> Seq<char>
    decreases s.len(),
{
    if s.len() > 0 && is_ws(s.last()) {
        trim_end(s.drop_last())
    } else {
        s
    }
}

/// `str::trim_start`: the text without its leading whitespace.
pub open spec fn trim_start(s: Seq<char>) -> Seq<char>
    decreases s.len(),
{
    if s.len() > 0 && is_ws(s[0]) {
        trim_start(s.drop_first())
    } else {
        s
    }
}

/// `str::trim`.
pub open spec fn trim(s: Seq<char>) -> Seq<char> {
    trim_end(trim_start(s))
}

/// A line that is a `---` fence once its trailing whitespace is dropped.
pub open spec fn is_fence(line: Seq<char>) -> bool {
    trim_end(line) == seq!['-', '-', '-']
}

/// The index of the first `\n` at or after `p`, or the length if there is none.
pub open spec fn next_nl(s: Seq<char>, p: int) -> int
    recommends
        0 <= p,
    decreases s.len() - p,
{
    if p >= s.len() {
        s.len() as int
    } else if s[p] == '\n' {
        p
    } else {
        next_nl(s, p + 1)
    }
}

/// Where the line starting at `p` ends, its `\n` included.
pub open spec fn line_next(s: Seq<char>, p: int) -> int {
    if next_nl(s, p) < s.len() {
        next_nl(s, p) + 1
    } else {
        s.len() as int
    }
}

/// The start of the first line, from the line start `p` on, that is a fence.
pub open spec fn close_from(s: Seq<char>, p: int) -> Option<int>
    recommends
        0 <= p,
    decreases s.len() - p,
{
    if p >= s.len() || p < 0 {
        None
    } else if is_fence(s.subrange(p, next_nl(s, p))) {
        Some(p)
    } else if next_nl(s, p) >= s.len() {
        None
    } else {
        proof {
            lemma_next_nl_bounds(s, p);
        }
        close_from(s, next_nl(s, p) + 1)
    }
}

/// The span of a source's frontmatter: the text between a `---` first line
/// and the next `---` line, as `(start, end)`; none if the source does not open
/// with a fence followed by a newline, or the fence is never closed.
pub open spec fn frontmatter_span(s: Seq<char>) -> Option<(int, int)> {
    let e = next_nl(s, 0);
    if e >= s.len() || !is_fence(s.subrange(0, e)) {
        None
    } else {
        match close_from(s, e + 1) {
            Some(c) => Some((e + 1, c)),
            None => None,
        }
    }
}

/// The frontmatter text of a source, if it has one.
pub open spec fn frontmatter_of(s: Seq<char>) -> Option<Seq<char>> {
    match frontmatter_span(s) {
        Some((a, b)) => Some(s.subrange(a, b)),
        None => None,
    }
}

pub proof fn lemma_close_from_bounds(s: Seq<char>, p: int)
    ensures
        close_from(s, p) matches Some(c) ==> p <= c < s.len(),
    decreases s.len() - p,
{
    if 0 <= p < s.len() && !is_fence(s.subrange(p, next_nl(s, p))) && next_nl(s, p) < s.len() {
        lemma_next_nl_bounds(s, p);
        lemma_close_from_bounds(s, next_nl(s, p) + 1);
    }
}

pub proof fn lemma_next_nl_bounds(s: Seq<char>, p: int)
    requires
        0 <= p,
    ensures
        p <= next_nl(s, p) <= s.len() || (p > s.len() && next_nl(s, p) == s.len()),
        next_nl(s, p) < s.len() ==> s[next_nl(s, p)] == '\n',
        forall|k: int| p <= k < next_nl(s, p) ==> s[k] != '\n',
    decreases s.len() - p,
{
    if p < s.len() && s[p] != '\n' {
        lemma_next_nl_bounds(s, p + 1);
    }
}

/// The characters of a string slice.
pub fn chars_of(s: &str) -> (v: Vec<char>)
    ensures
        v@ == s@,
{
    let n = s.unicode_len();
    let mut v: Vec<char> = Vec::new();
    let mut i: usize = 0;
    while i < n
        invariant
            n == s@.len(),
            i <= n,
            v@ == s@.take(i as int),
        decreases n - i,
    {
        v.push(s.get_char(i));
        i = i + 1;
    }
    proof {
        assert(s@.take(n as int) =~= s@);
    }
    v
}

/// The index of the first `\n` in `cs` at or after `p`, or its length.
pub fn find_nl(cs: &Vec<char>, p: usize) -> (r: usize)
    requires
        p <= cs@.len(),
    ensures
        r == next_nl(cs@, p as int),
        p <= r <= cs@.len(),
{
    let mut i = p;
    while i < cs.len() && cs[i] != '\n'
        invariant
            p <= i <= cs@.len(),
            next_nl(cs@, p as int) == next_nl(cs@, i as int),
        decreases cs.len() - i,
    {
        i = i + 1;
    }
    i
}

/// Where `cs[from..to]` ends once its trailing whitespace is dropped.
pub fn trim_end_at(cs: &Vec<char>, from: usize, to: usize) -> (e: usize)
    requires
        from <= to <= cs@.len(),
    ensures
        from <= e <= to,
        cs@.subrange(from as int, e as int) == trim_end(cs@.subrange(from as int, to as int)),
{
    let mut e = to;
    while e > from && is_whitespace(cs[e - 1])
        invariant
            from <= e <= to <= cs@.len(),
            trim_end(cs@.subrange(from as int, e as int)) == trim_end(
                cs@.subrange(from as int, to as int),
            ),
        decreases e,
    {
        proof {
            assert(cs@.subrange(from as int, e as int).drop_last() =~= cs@.subrange(
                from as int,
                e - 1,
            ));
        }
        e = e - 1;
    }
    e
}

/// Where `cs[from..to]` starts once its leading whitespace is dropped.
pub fn trim_start_at(cs: &Vec<char>, from: usize, to: usize) -> (b: usize)
    requires
        from <= to <= cs@.len(),
    ensures
        from <= b <= to,
        cs@.subrange(b as int, to as int) == trim_start(cs@.subrange(from as int, to as int)),
{
    let mut b = from;
    while b < to && is_whitespace(cs[b])
        invariant
            from <= b <= to <= cs@.len(),
            trim_start(cs@.subrange(b as int, to as int)) == trim_start(
                cs@.subrange(from as int, to as int),
            ),
        decreases to - b,
    {
        proof {
            assert(cs@.subrange(b as int, to as int).drop_first() =~= cs@.subrange(
                b + 1,
                to as int,
            ));
        }
        b = b + 1;
    }
    proof {
        if b < to {
            assert(cs@.subrange(b as int, to as int)[0] == cs@[b as int]);
        }
    }
    b
}

/// Whether `cs[from..to]` is a fence line.
pub fn fence_at(cs: &Vec<char>, from: usize, to: usize) -> (r: bool)
    requires
        from <= to <= cs@.len(),
    ensures
        r == is_fence(cs@.subrange(from as int, to as int)),
{
    let e = trim_end_at(cs, from, to);
    let r = e - from == 3 && cs[from] == '-' && cs[from + 1] == '-' && cs[from + 2] == '-';
    proof {
        let t = cs@.subrange(from as int, e as int);
        if r {
            assert(t =~= seq!['-', '-', '-']);
        } else if t.len() == 3 {
            assert(t[0] == cs@[from as int] && t[1] == cs@[from + 1] && t[2] == cs@[from + 2]);
        }
    }
    r
}

/// The start of the first fence line from the line start `p` on.
pub fn find_close(cs: &Vec<char>, p: usize) -> (r: Option<usize>)
    requires
        p <= cs@.len(),
    ensures
        match r {
            Some(c) => close_from(cs@, p as int) == Some(c as int) && p <= c < cs@.len(),
            None => close_from(cs@, p as int) is None,
        },
{
    let mut q = p;
    while q < cs.len()
        invariant
            p <= q <= cs@.len(),
            close_from(cs@, p as int) == close_from(cs@, q as int),
        decreases cs.len() - q,
    {
        proof {
            lemma_close_from_bounds(cs@, q as int);
        }
        let e = find_nl(cs, q);
        if fence_at(cs, q, e) {
            return Some(q);
        }
        if e >= cs.len() {
            return None;
        }
        q = e + 1;
    }
    None
}

/// The YAML frontmatter of a source: the text between its leading `---` fence
/// and the next `---` line. None if the source does not open with a fence.
pub fn frontmatter(source: &str) -> (r: Option<&str>)
    ensures
        match r {
            Some(f) => frontmatter_of(source@) == Some(f@),
            None => frontmatter_of(source@) is None,
        },
{
    let cs = chars_of(source);
    let e = find_nl(&cs, 0);
    if e >= cs.len() || !fence_at(&cs, 0, e) {
        return None;
    }
    match find_close(&cs, e + 1) {
        Some(c) => Some(source.substring_char(e + 1, c)),
        None => None,
    }
}

/// Appends one character to a string with `String::push`.
#[verifier::external_body]
fn push_char(s: &mut String, c: char)
    ensures
        final(s)@ == old(s)@.push(c),
{
    s.push(c);
}

/// The string `cs[from..to]`.
pub fn string_of(cs: &Vec<char>, from: usize, to: usize) -> (r: String)
    requires
        from <= to <= cs@.len(),
    ensures
        r@ == cs@.subrange(from as int, to as int),
{
    let mut r = String::new();
    let mut i = from;
    while i < to
        invariant
            from <= i <= to <= cs@.len(),
            r@ == cs@.subrange(from as int, i as int),
        decreases to - i,
    {
        push_char(&mut r, cs[i]);
        proof {
            assert(cs@.subrange(from as int, i + 1) =~= cs@.subrange(from as int, i as int).push(
                cs@[i as int],
            ));
        }
        i = i + 1;
    }
    r
}

/// A decimal digit.
pub open spec fn digit(d: nat) -> char {
    ((d % 10) + 48) as char
}

/// The decimal text of `n`, as `usize`'s `Display` prints it.
pub open spec fn decimal(n: nat) -> Seq<char>
    decreases n,
{
    if n < 10 {
        seq![digit(n)]
    } else {
        decimal(n / 10).push(digit(n % 10))
    }
}

/// The decimal text of `n`.
pub fn decimal_string(n: usize) -> (r: String)
    ensures
        r@ == decimal(n as nat),
    decreases n,
{
    if n < 10 {
        let mut r = String::new();
        push_char(&mut r, digit_char(n));
        r
    } else {
        let mut r = decimal_string(n / 10);
        push_char(&mut r, digit_char(n % 10));
        r
    }
}

fn digit_char(d: usize) -> (c: char)
    requires
        d < 10,
    ensures
        c == digit(d as nat),
{
    let u: u8 = (d as u8) + 48;
    u as char
}

/// Appends `b` to `a`.
pub fn append(a: &mut String, b: &str)
    ensures
        final(a)@ == old(a)@ + b@,
{
    a.append(b);
}

/// A fresh string holding `s`.
pub fn owned(s: &str) -> (r: String)
    ensures
        r@ == s@,
{
    s.to_owned()
}

/// `a`, `x` and `b` in a row.
pub fn join3(a: &str, x: &str, b: &str) -> (r: String)
    ensures
        r@ == a@ + x@ + b@,
{
    let mut r = owned(a);
    append(&mut r, x);
    append(&mut r, b);
    r
}

/// `a`, `x`, `b`, `y` and `c` in a row.
pub fn join5(a: &str, x: &str, b: &str, y: &str, c: &str) -> (r: String)
    ensures
        r@ == a@ + x@ + b@ + y@ + c@,
{
    let mut r = join3(a, x, b);
    append(&mut r, y);
    append(&mut r, c);
    r
}

/// The path of a child node: the parent's path, a dot, and the key; just the
/// key at the root.
pub open spec fn child_path(path: Seq<char>, seg: Seq<char>) -> Seq<char> {
    if path.len() == 0 {
        seg
    } else {
        path + "."@ + seg
    }
}

/// The path of the `i`-th item of a sequence.
pub open spec fn index_path(path: Seq<char>, i: nat) -> Seq<char> {
    path + "["@ + decimal(i) + "]"@
}

/// The path of a child node, dotted even at the root.
pub open spec fn dot_path(path: Seq<char>, seg: Seq<char>) -> Seq<char> {
    path + "."@ + seg
}

/// The path of a child node.
pub fn child_path_of(path: &str, seg: &str) -> (r: String)
    ensures
        r@ == child_path(path@, seg@),
{
    if path.unicode_len() == 0 {
        owned(seg)
    } else {
        join3(path, ".", seg)
    }
}

/// The path of the `i`-th item of a sequence.
pub fn index_path_of(path: &str, i: usize) -> (r: String)
    ensures
        r@ == index_path(path@, i as nat),
{
    let d = decimal_string(i);
    let mut r = join3(path, "[", d.as_str());
    append(&mut r, "]");
    r
}

/// The path of a child node, dotted even at the root.
pub fn dot_path_of(path: &str, seg: &str) -> (r: String)
    ensures
        r@ == dot_path(path@, seg@),
{
    join3(path, ".", seg)
}

/// The strings of a list, by their characters.
pub open spec fn sviews(v: Seq<String>) -> Seq<Seq<char>> {
    v.map_values(|s: String| s@)
}

/// Whether the list holds the string `s`.
pub fn contains_str(v: &Vec<String>, s: &str) -> (r: bool)
    ensures
        r == sviews(v@).contains(s@),
{
    let mut i: usize = 0;
    while i < v.len()
        invariant
            i <= v@.len(),
            forall|k: int| 0 <= k < i ==> v@[k]@ != s@,
        decreases v.len() - i,
    {
        if crate::yaml::str_eq(v[i].as_str(), s) {
            proof {
                assert(sviews(v@)[i as int] == s@);
            }
            return true;
        }
        i = i + 1;
    }
    proof {
        if sviews(v@).contains(s@) {
            let k = choose|k: int| 0 <= k < sviews(v@).len() && sviews(v@)[k] == s@;
            assert(v@[k]@ == s@);
        }
    }
    false
}

} // verus!
