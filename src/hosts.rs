use vstd::prelude::*;

verus! {

/// The comment line that opens the managed block.
pub const MARKER: &'static str = "# GitHub Fastest IP (Auto Updated)";

/// Whether a character has the Unicode `White_Space` property.
pub open spec fn is_ws(c: char) -> bool {
    let u = c as u32;
    (0x09 <= u && u <= 0x0d) || u == 0x20 || u == 0x85 || u == 0xa0 || u == 0x1680 || (0x2000
        <= u && u <= 0x200a) || u == 0x2028 || u == 0x2029 || u == 0x202f || u == 0x205f || u
        == 0x3000
}

/// Whether a line is empty once surrounding white space is trimmed.
pub open spec fn is_blank(l: Seq<char>) -> bool {
    forall|i: int| 0 <= i < l.len() ==> is_ws(#[trigger] l[i])
}

/// Whether `p` occurs in `s` as a run of consecutive characters.
pub open spec fn contains(s: Seq<char>, p: Seq<char>) -> bool {
    exists|i: int| 0 <= i && i + p.len() <= s.len() && #[trigger] s.subrange(i, i + p.len()) == p
}

/// Whether a line, trimmed of white space at both ends, is the marker
/// comment.
pub open spec fn is_marker_line(l: Seq<char>) -> bool {
    exists|a: int, b: int|
        0 <= a <= b <= l.len() && #[trigger] l.subrange(a, b) == MARKER@ && (forall|j: int|
            0 <= j < a ==> is_ws(#[trigger] l[j])) && (forall|j: int|
            b <= j < l.len() ==> is_ws(#[trigger] l[j]))
}

/// Whether a line belongs to the managed block: it mentions a managed
/// hostname or, trimmed, is the marker comment.
pub open spec fn is_managed(l: Seq<char>, hosts: Seq<Seq<char>>) -> bool {
    is_marker_line(l) || exists|k: int| 0 <= k < hosts.len() && contains(l, #[trigger] hosts[k])
}

/// Whether a line of the old file is carried over into the new one.
pub open spec fn is_retained(l: Seq<char>, hosts: Seq<Seq<char>>) -> bool {
    !is_blank(l) && !is_managed(l, hosts)
}

/// The index of the first line feed in `s`, or `s.len()` where there is none.
pub open spec fn first_newline(s: Seq<char>) -> int
    decreases s.len(),
{
    if s.len() == 0 || s[0] == '\n' {
        0
    } else {
        1 + first_newline(s.drop_first())
    }
}

/// The lines of a text: split at each line feed, each line kept verbatim
/// (a carriage return before a line feed stays with its line), and no empty
/// last line after a final line feed.
pub open spec fn lines(s: Seq<char>) -> Seq<Seq<char>>
    decreases s.len(),
{
    if s.len() == 0 {
        Seq::empty()
    } else {
        let k = first_newline(s);
        if 0 <= k < s.len() {
            seq![s.subrange(0, k)] + lines(s.subrange(k + 1, s.len() as int))
        } else {
            seq![s]
        }
    }
}

/// The text made of the given lines, each followed by a line feed.
pub open spec fn join_lines(ls: Seq<Seq<char>>) -> Seq<char>
    decreases ls.len(),
{
    if ls.len() == 0 {
        Seq::empty()
    } else {
        ls[0] + seq!['\n'] + join_lines(ls.drop_first())
    }
}

/// The entry line that maps `host` to `ip`.
pub open spec fn entry(ip: Seq<char>, host: Seq<char>) -> Seq<char> {
    ip + seq![' '] + host
}

/// The managed block: an empty line, the marker comment, then one entry for
/// each managed hostname, in order.
pub open spec fn managed_block(ip: Seq<char>, hosts: Seq<Seq<char>>) -> Seq<Seq<char>> {
    seq![Seq::empty(), MARKER@] + hosts.map_values(|h: Seq<char>| entry(ip, h))
}

/// The lines of `content` that are carried over, in their order.
pub open spec fn retained_lines(content: Seq<char>, hosts: Seq<Seq<char>>) -> Seq<Seq<char>> {
    lines(content).filter(|l: Seq<char>| is_retained(l, hosts))
}

/// The new text of an override file whose old text is `content`: its retained
/// lines, then the managed block for `ip`.
pub open spec fn rewritten(content: Seq<char>, ip: Seq<char>, hosts: Seq<Seq<char>>) -> Seq<char> {
    join_lines(retained_lines(content, hosts)) + join_lines(managed_block(ip, hosts))
}

/// The text of each string of a list.
pub open spec fn texts(v: Seq<String>) -> Seq<Seq<char>> {
    v.map_values(|s: String| s@)
}

/// The characters of a string, one by one.
pub fn chars_of(s: &str) -> (r: Vec<char>)
    ensures
        r@ == s@,
{
    let mut r: Vec<char> = Vec::new();
    for c in it: s.chars()
        invariant
            r@ == it.seq().subrange(0, it.index() as int),
    {
        r.push(c);
    }
    r
}

/// Whether `c` has the Unicode `White_Space` property.
fn is_ws_char(c: char) -> (r: bool)
    ensures
        r == is_ws(c),
{
    let u = c as u32;
    (0x09 <= u && u <= 0x0d) || u == 0x20 || u == 0x85 || u == 0xa0 || u == 0x1680 || (0x2000
        <= u && u <= 0x200a) || u == 0x2028 || u == 0x2029 || u == 0x202f || u == 0x205f || u
        == 0x3000
}

/// Whether the characters `t[a..b]` are all white space.
fn is_blank_range(t: &Vec<char>, a: usize, b: usize) -> (r: bool)
    requires
        a <= b <= t@.len(),
    ensures
        r == is_blank(t@.subrange(a as int, b as int)),
{
    let mut i: usize = a;
    while i < b
        invariant
            a <= i <= b,
            b <= t@.len(),
            forall|j: int| a <= j < i ==> is_ws(#[trigger] t@[j]),
        decreases b - i,
    {
        if !is_ws_char(t[i]) {
            assert(t@.subrange(a as int, b as int)[i - a] == t@[i as int]);
            return false;
        }
        i = i + 1;
    }
    assert forall|j: int| 0 <= j < b - a implies is_ws(
        #[trigger] t@.subrange(a as int, b as int)[j],
    ) by {
        assert(t@.subrange(a as int, b as int)[j] == t@[a + j]);
    }
    true
}

/// Whether `p` occurs in `t` at index `i`.
fn occurs_at(t: &Vec<char>, i: usize, p: &Vec<char>) -> (r: bool)
    requires
        i + p@.len() <= t@.len(),
    ensures
        r == (t@.subrange(i as int, i + p@.len()) == p@),
{
    let n = t.len();
    let mut j: usize = 0;
    while j < p.len()
        invariant
            n == t@.len(),
            i + p@.len() <= t@.len(),
            j <= p@.len(),
            forall|k: int| 0 <= k < j ==> t@[i + k] == p@[k],
        decreases p@.len() - j,
    {
        if t[i + j] != p[j] {
            assert(t@.subrange(i as int, i + p@.len())[j as int] != p@[j as int]);
            return false;
        }
        j = j + 1;
    }
    assert(t@.subrange(i as int, i + p@.len()) =~= p@);
    true
}

/// Whether `p` occurs in the characters `t[a..b]`.
fn contains_range(t: &Vec<char>, a: usize, b: usize, p: &Vec<char>) -> (r: bool)
    requires
        a <= b <= t@.len(),
    ensures
        r == contains(t@.subrange(a as int, b as int), p@),
{
    let ghost s = t@.subrange(a as int, b as int);
    if p.len() > b - a {
        return false;
    }
    let last = b - p.len();
    let mut i: usize = a;
    while i < last
        invariant
            a <= i <= last,
            last + p@.len() == b,
            b <= t@.len(),
            s == t@.subrange(a as int, b as int),
            forall|k: int| a <= k < i ==> #[trigger] t@.subrange(k, k + p@.len()) != p@,
        decreases last - i,
    {
        if occurs_at(t, i, p) {
            assert(s.subrange(i - a, i - a + p@.len()) =~= t@.subrange(i as int, i + p@.len()));
            return true;
        }
        i = i + 1;
    }
    if occurs_at(t, last, p) {
        assert(s.subrange(last - a, last - a + p@.len()) =~= t@.subrange(
            last as int,
            last + p@.len(),
        ));
        return true;
    }
    assert forall|k: int| 0 <= k && k + p@.len() <= s.len() implies #[trigger] s.subrange(
        k,
        k + p@.len(),
    ) != p@ by {
        assert(s.subrange(k, k + p@.len()) =~= t@.subrange(a + k, a + k + p@.len()));
    }
    false
}

/// The marker comment neither starts nor ends with white space.
proof fn lemma_marker_ends()
    ensures
        MARKER@.len() > 0,
        !is_ws(MARKER@[0]),
        !is_ws(MARKER@[MARKER@.len() - 1]),
        forall|i: int| 0 <= i < MARKER@.len() ==> #[trigger] MARKER@[i] != '\n',
{
    reveal_strlit("# GitHub Fastest IP (Auto Updated)");
    assert(MARKER@ == "# GitHub Fastest IP (Auto Updated)"@);
}

/// Whether the characters `t[a..b]`, trimmed of white space at both ends,
/// are the marker comment.
fn is_marker_range(t: &Vec<char>, a: usize, b: usize, marker: &Vec<char>) -> (r: bool)
    requires
        a <= b <= t@.len(),
        marker@ == MARKER@,
    ensures
        r == is_marker_line(t@.subrange(a as int, b as int)),
{
    let ghost l = t@.subrange(a as int, b as int);
    let mut i: usize = a;
    while i < b && is_ws_char(t[i])
        invariant
            a <= i <= b <= t@.len(),
            forall|j: int| a <= j < i ==> is_ws(#[trigger] t@[j]),
        decreases b - i,
    {
        i = i + 1;
    }
    let mut e: usize = b;
    while e > i && is_ws_char(t[e - 1])
        invariant
            a <= i <= e <= b <= t@.len(),
            forall|j: int| e <= j < b ==> is_ws(#[trigger] t@[j]),
        decreases e - i,
    {
        e = e - 1;
    }
    proof {
        lemma_marker_ends();
    }
    let r = e - i == marker.len() && occurs_at(t, i, marker);
    proof {
        let la = i - a;
        let lb = e - a;
        if r {
            assert(l.subrange(la, lb) =~= MARKER@);
            assert forall|j: int| 0 <= j < la implies is_ws(#[trigger] l[j]) by {
                assert(l[j] == t@[a + j]);
            }
            assert forall|j: int| lb <= j < l.len() implies is_ws(#[trigger] l[j]) by {
                assert(l[j] == t@[a + j]);
            }
        } else if is_marker_line(l) {
            let (x, y) = choose|x: int, y: int|
                0 <= x <= y <= l.len() && #[trigger] l.subrange(x, y) == MARKER@ && (forall|j: int|
                    0 <= j < x ==> is_ws(#[trigger] l[j])) && (forall|j: int|
                    y <= j < l.len() ==> is_ws(#[trigger] l[j]));
            let m = MARKER@.len() as int;
            assert(y - x == m);
            assert(l[x] == MARKER@[0]) by {
                assert(l.subrange(x, y)[0] == l[x]);
            }
            assert(l[y - 1] == MARKER@[m - 1]) by {
                assert(l.subrange(x, y)[m - 1] == l[y - 1]);
            }
            // the first non-blank character is at `x`
            if la < x {
                assert(l[la] == t@[i as int]);
                assert(is_ws(l[la]));
            }
            if x < la {
                assert(l[x] == t@[a + x]);
            }
            assert(la == x);
            // the last non-blank character is at `y - 1`
            if y < lb {
                assert(l[lb - 1] == t@[e - 1]);
                assert(is_ws(l[lb - 1]));
            }
            if lb < y {
                assert(l[y - 1] == t@[a + y - 1]);
            }
            assert(lb == y);
            assert(t@.subrange(i as int, i + m) =~= l.subrange(x, y));
        }
    }
    r
}

/// Whether the characters `t[a..b]` form a managed line.
fn is_managed_range(
    t: &Vec<char>,
    a: usize,
    b: usize,
    marker: &Vec<char>,
    pats: &Vec<Vec<char>>,
    hosts: Ghost<Seq<Seq<char>>>,
) -> (r: bool)
    requires
        a <= b <= t@.len(),
        marker@ == MARKER@,
        pats@.len() == hosts@.len(),
        forall|k: int| 0 <= k < pats@.len() ==> #[trigger] pats@[k]@ == hosts@[k],
    ensures
        r == is_managed(t@.subrange(a as int, b as int), hosts@),
{
    if is_marker_range(t, a, b, marker) {
        return true;
    }
    for k in 0..pats.len()
        invariant
            a <= b <= t@.len(),
            pats@.len() == hosts@.len(),
            forall|k: int| 0 <= k < pats@.len() ==> #[trigger] pats@[k]@ == hosts@[k],
            forall|j: int|
                0 <= j < k ==> !contains(t@.subrange(a as int, b as int), #[trigger] hosts@[j]),
    {
        if contains_range(t, a, b, &pats[k]) {
            return true;
        }
    }
    false
}

/// `first_newline` is the index of the first line feed, or the length.
proof fn lemma_first_newline(s: Seq<char>, k: int)
    requires
        0 <= k <= s.len(),
        forall|j: int| 0 <= j < k ==> s[j] != '\n',
        k == s.len() || s[k] == '\n',
    ensures
        first_newline(s) == k,
    decreases k,
{
    if k > 0 {
        lemma_first_newline(s.drop_first(), k - 1);
    }
}

/// The index of the first line feed in `t[a..]`, or `t.len()`.
fn find_newline(t: &Vec<char>, a: usize) -> (r: usize)
    requires
        a <= t@.len(),
    ensures
        a <= r <= t@.len(),
        r - a == first_newline(t@.subrange(a as int, t@.len() as int)),
        r < t@.len() ==> t@[r as int] == '\n',
{
    let mut i: usize = a;
    while i < t.len() && t[i] != '\n'
        invariant
            a <= i <= t@.len(),
            forall|j: int| a <= j < i ==> t@[j] != '\n',
        decreases t@.len() - i,
    {
        i = i + 1;
    }
    proof {
        let s = t@.subrange(a as int, t@.len() as int);
        lemma_first_newline(s, i - a);
    }
    i
}

/// Joining two runs of lines joins their texts.
proof fn lemma_join_add(x: Seq<Seq<char>>, y: Seq<Seq<char>>)
    ensures
        join_lines(x + y) == join_lines(x) + join_lines(y),
    decreases x.len(),
{
    if x.len() == 0 {
        assert(x + y =~= y);
    } else {
        lemma_join_add(x.drop_first(), y);
        assert((x + y).drop_first() =~= x.drop_first() + y);
        assert(join_lines(x + y) =~= join_lines(x) + join_lines(y));
    }
}

/// Filtering one line keeps it exactly when it passes.
proof fn lemma_filter_one(x: Seq<char>, pred: spec_fn(Seq<char>) -> bool)
    ensures
        seq![x].filter(pred) == if pred(x) {
            seq![x]
        } else {
            Seq::<Seq<char>>::empty()
        },
{
    reveal(Seq::filter);
    assert(seq![x].drop_last() =~= Seq::<Seq<char>>::empty());
    assert(Seq::<Seq<char>>::empty().filter(pred) =~= Seq::<Seq<char>>::empty());
}

/// A single line joins to itself and a line feed.
proof fn lemma_join_one(x: Seq<char>)
    ensures
        join_lines(seq![x]) == x + seq!['\n'],
{
    let e = Seq::<Seq<char>>::empty();
    assert(seq![x].drop_first() =~= e);
    assert(join_lines(e) == Seq::<char>::empty());
    assert(join_lines(seq![x]) == seq![x][0] + seq!['\n'] + join_lines(e));
    assert(join_lines(seq![x]) =~= x + seq!['\n']);
}

/// One step of the scan over the lines of `t`: the line that starts at
/// `start` and ends before `end`, then the lines from `next` on.
proof fn lemma_line_step(
    t: Seq<char>,
    start: int,
    end: int,
    next: int,
    pred: spec_fn(Seq<char>) -> bool,
)
    requires
        0 <= start < t.len(),
        start <= end <= t.len(),
        end - start == first_newline(t.subrange(start, t.len() as int)),
        end < t.len() ==> t[end] == '\n',
        next == if end < t.len() {
            end + 1
        } else {
            t.len() as int
        },
    ensures
        join_lines(lines(t.subrange(start, t.len() as int)).filter(pred)) == (if pred(
            t.subrange(start, end),
        ) {
            t.subrange(start, end) + seq!['\n']
        } else {
            Seq::<char>::empty()
        }) + join_lines(lines(t.subrange(next, t.len() as int)).filter(pred)),
{
    let n = t.len() as int;
    let rest = t.subrange(start, n);
    let line = t.subrange(start, end);
    let later = t.subrange(next, n);
    if end < n {
        assert(rest.subrange(0, end - start) =~= line);
        assert(rest.subrange(end - start + 1, rest.len() as int) =~= later);
        assert(lines(rest) == seq![line] + lines(later));
    } else {
        assert(line =~= rest);
        assert(later =~= Seq::<char>::empty());
        assert(lines(rest) == seq![line]);
        assert(lines(later) =~= Seq::<Seq<char>>::empty());
        assert(seq![line] + lines(later) =~= seq![line]);
    }
    Seq::filter_distributes_over_add(seq![line], lines(later), pred);
    lemma_filter_one(line, pred);
    lemma_join_add(seq![line].filter(pred), lines(later).filter(pred));
    lemma_join_one(line);
    if !pred(line) {
        assert(join_lines(Seq::<Seq<char>>::empty()) == Seq::<char>::empty());
    }
}

/// The hostnames that the managed block maps to the chosen address: the
/// domain and its known aliases.
pub fn managed_hosts() -> (r: Vec<String>)
    ensures
        r@.len() == 3,
        r@[0]@ == "github.com"@,
        r@[1]@ == "assets-cdn.github.com"@,
        r@[2]@ == "github.global.ssl.fastly.net"@,
{
    let mut r: Vec<String> = Vec::new();
    r.push(String::from_str("github.com"));
    r.push(String::from_str("assets-cdn.github.com"));
    r.push(String::from_str("github.global.ssl.fastly.net"));
    r
}

/// Where the system keeps its override file: the Windows location where
/// `windows` holds, `/etc/hosts` elsewhere.
pub fn get_hosts_path(windows: bool) -> (r: String)
    ensures
        r@ == (if windows {
            "C:\\Windows\\System32\\drivers\\etc\\hosts"@
        } else {
            "/etc/hosts"@
        }),
{
    if windows {
        String::from_str("C:\\Windows\\System32\\drivers\\etc\\hosts")
    } else {
        String::from_str("/etc/hosts")
    }
}

/// The new text of an override file whose old text is `content`: every line
/// that is not blank, mentions no hostname of `hosts` and, trimmed, is not
/// the marker comment, verbatim and in order, each followed by a line feed;
/// then an empty line, the marker comment and one line `<ip> <host>` for each
/// hostname of `hosts`, in order.
pub fn rewrite_hosts(content: &str, ip: &str, hosts: &Vec<String>) -> (r: String)
    ensures
        r@ == rewritten(content@, ip@, texts(hosts@)),
{
    let ghost hs = texts(hosts@);
    let ghost pred = |l: Seq<char>| is_retained(l, hs);
    let t = chars_of(content);
    let n = t.len();
    let marker = chars_of(MARKER);
    let mut pats: Vec<Vec<char>> = Vec::new();
    for k in 0..hosts.len()
        invariant
            hs == texts(hosts@),
            pats@.len() == k,
            forall|j: int| 0 <= j < k ==> #[trigger] pats@[j]@ == hs[j],
    {
        pats.push(chars_of(hosts[k].as_str()));
    }
    let mut out = String::new();
    let mut start: usize = 0;
    assert(t@.subrange(0, n as int) == t@);
    while start < n
        invariant
            n == t@.len(),
            t@ == content@,
            start <= n,
            marker@ == MARKER@,
            hs == texts(hosts@),
            pats@.len() == hs.len(),
            forall|j: int| 0 <= j < pats@.len() ==> #[trigger] pats@[j]@ == hs[j],
            pred == (|l: Seq<char>| is_retained(l, hs)),
            join_lines(lines(t@).filter(pred)) == out@ + join_lines(
                lines(t@.subrange(start as int, n as int)).filter(pred),
            ),
        decreases n - start,
    {
        let end = find_newline(&t, start);
        let keep = !is_blank_range(&t, start, end) && !is_managed_range(
            &t,
            start,
            end,
            &marker,
            &pats,
            Ghost(hs),
        );
        let ghost before = out@;
        if keep {
            out.append(content.substring_char(start, end));
            out.append("\n");
        }
        let next = if end < n {
            end + 1
        } else {
            n
        };
        proof {
            reveal_strlit("\n");
            lemma_line_step(t@, start as int, end as int, next as int, pred);
        }
        start = next;
    }
    proof {
        assert(t@.subrange(n as int, n as int) =~= Seq::<char>::empty());
        assert(lines(Seq::<char>::empty()).filter(pred) =~= Seq::<Seq<char>>::empty()) by {
            reveal(Seq::filter);
        }
        assert(out@ == join_lines(retained_lines(content@, hs)));
    }
    let ghost kept = out@;
    out.append("\n");
    out.append(MARKER);
    out.append("\n");
    let ghost head = out@;
    proof {
        reveal_strlit("\n");
        lemma_join_one(MARKER@);
        assert(seq![Seq::<char>::empty(), MARKER@].drop_first() =~= seq![MARKER@]);
        assert(join_lines(seq![Seq::<char>::empty(), MARKER@]) =~= seq!['\n'] + MARKER@ + seq![
            '\n',
        ]);
        assert(head =~= kept + join_lines(seq![Seq::<char>::empty(), MARKER@]));
    }
    for k in 0..hosts.len()
        invariant
            hs == texts(hosts@),
            out@ == head + join_lines(
                hs.subrange(0, k as int).map_values(|h: Seq<char>| entry(ip@, h)),
            ),
    {
        let ghost before = out@;
        out.append(ip);
        out.append(" ");
        out.append(hosts[k].as_str());
        out.append("\n");
        proof {
            reveal_strlit(" ");
            reveal_strlit("\n");
            let f = |h: Seq<char>| entry(ip@, h);
            let prev = hs.subrange(0, k as int).map_values(f);
            let e = entry(ip@, hs[k as int]);
            assert(hs.subrange(0, k + 1).map_values(f) =~= prev + seq![e]);
            lemma_join_add(prev, seq![e]);
            lemma_join_one(e);
            assert(out@ =~= before + e + seq!['\n']);
        }
    }
    proof {
        let f = |h: Seq<char>| entry(ip@, h);
        assert(hs.subrange(0, hs.len() as int) =~= hs);
        lemma_join_add(seq![Seq::<char>::empty(), MARKER@], hs.map_values(f));
    }
    out
}

/// Whether a piece of text holds no line break: no line feed and no
/// carriage return.
pub open spec fn is_single_line(s: Seq<char>) -> bool {
    forall|i: int| 0 <= i < s.len() ==> #[trigger] s[i] != '\n' && s[i] != '\r'
}

/// No line of a text holds a line feed.
proof fn lemma_lines_no_newline(s: Seq<char>)
    ensures
        forall|k: int, i: int|
            0 <= k < lines(s).len() && 0 <= i < lines(s)[k].len() ==> #[trigger] lines(s)[k][i]
                != '\n',
    decreases s.len(),
{
    if s.len() > 0 {
        let k = first_newline(s);
        lemma_first_newline_bound(s);
        if 0 <= k < s.len() {
            let later = s.subrange(k + 1, s.len() as int);
            lemma_lines_no_newline(later);
            let head = s.subrange(0, k);
            assert forall|m: int, i: int|
                0 <= m < lines(s).len() && 0 <= i < lines(s)[m].len() implies #[trigger] lines(
                s,
            )[m][i] != '\n' by {
                if m == 0 {
                    assert(lines(s)[0] == head);
                    assert(head[i] == s[i]);
                } else {
                    assert(lines(s)[m] == lines(later)[m - 1]);
                }
            }
        } else {
            assert forall|m: int, i: int|
                0 <= m < lines(s).len() && 0 <= i < lines(s)[m].len() implies #[trigger] lines(
                s,
            )[m][i] != '\n' by {
                assert(lines(s)[0] == s);
            }
        }
    }
}

/// Before `first_newline` there is no line feed, and at it, where it is
/// inside the text, there is one.
proof fn lemma_first_newline_bound(s: Seq<char>)
    ensures
        0 <= first_newline(s) <= s.len(),
        forall|j: int| 0 <= j < first_newline(s) ==> s[j] != '\n',
        first_newline(s) < s.len() ==> s[first_newline(s)] == '\n',
    decreases s.len(),
{
    if s.len() > 0 && s[0] != '\n' {
        lemma_first_newline_bound(s.drop_first());
        assert forall|j: int| 0 <= j < first_newline(s) implies s[j] != '\n' by {
            if j > 0 {
                assert(s[j] == s.drop_first()[j - 1]);
            }
        }
    }
}

/// Splitting joined lines gives the lines back, where none of them holds a
/// line feed.
proof fn lemma_lines_join(ls: Seq<Seq<char>>)
    requires
        forall|k: int, i: int|
            0 <= k < ls.len() && 0 <= i < ls[k].len() ==> #[trigger] ls[k][i] != '\n',
    ensures
        lines(join_lines(ls)) == ls,
    decreases ls.len(),
{
    if ls.len() == 0 {
        assert(lines(join_lines(ls)) =~= ls);
    } else {
        let rest = ls.drop_first();
        let s = join_lines(ls);
        let x = ls[0];
        assert forall|k: int, i: int|
            0 <= k < rest.len() && 0 <= i < rest[k].len() implies #[trigger] rest[k][i]
            != '\n' by {
            assert(rest[k] == ls[k + 1]);
        }
        lemma_lines_join(rest);
        assert(s == x + seq!['\n'] + join_lines(rest));
        assert forall|j: int| 0 <= j < x.len() implies s[j] != '\n' by {
            assert(s[j] == x[j]);
            assert(ls[0][j] != '\n');
        }
        lemma_first_newline(s, x.len() as int);
        assert(s.subrange(0, x.len() as int) =~= x);
        assert(s.subrange(x.len() as int + 1, s.len() as int) =~= join_lines(rest));
        assert(lines(s) =~= seq![x] + rest);
    }
}

/// Filtering keeps a sequence whole where every element passes.
proof fn lemma_filter_all(s: Seq<Seq<char>>, pred: spec_fn(Seq<char>) -> bool)
    requires
        forall|k: int| 0 <= k < s.len() ==> pred(#[trigger] s[k]),
    ensures
        s.filter(pred) == s,
    decreases s.len(),
{
    reveal(Seq::filter);
    if s.len() > 0 {
        lemma_filter_all(s.drop_last(), pred);
        assert(s.drop_last().push(s.last()) =~= s);
    }
}

/// Filtering empties a sequence where no element passes.
proof fn lemma_filter_none(s: Seq<Seq<char>>, pred: spec_fn(Seq<char>) -> bool)
    requires
        forall|k: int| 0 <= k < s.len() ==> !pred(#[trigger] s[k]),
    ensures
        s.filter(pred) == Seq::<Seq<char>>::empty(),
    decreases s.len(),
{
    reveal(Seq::filter);
    if s.len() > 0 {
        lemma_filter_none(s.drop_last(), pred);
    } else {
        assert(s.filter(pred) =~= Seq::<Seq<char>>::empty());
    }
}

/// Each element of a filtered sequence is an element of the unfiltered one.
proof fn lemma_filter_contains_in(s: Seq<Seq<char>>, pred: spec_fn(Seq<char>) -> bool, k: int)
    requires
        0 <= k < s.filter(pred).len(),
    ensures
        exists|m: int| 0 <= m < s.len() && s[m] == s.filter(pred)[k],
{
    s.lemma_filter_contains_rev(pred, s.filter(pred)[k]);
}

/// No line of the managed block holds a line feed, and each of its lines
/// is blank or managed.
proof fn lemma_block_shape(ip: Seq<char>, hosts: Seq<Seq<char>>)
    requires
        is_single_line(ip),
        forall|k: int| 0 <= k < hosts.len() ==> is_single_line(#[trigger] hosts[k]),
    ensures
        forall|k: int, i: int|
            0 <= k < managed_block(ip, hosts).len() && 0 <= i < managed_block(ip, hosts)[k].len()
                ==> #[trigger] managed_block(ip, hosts)[k][i] != '\n',
        forall|k: int|
            0 <= k < managed_block(ip, hosts).len() ==> !is_retained(
                #[trigger] managed_block(ip, hosts)[k],
                hosts,
            ),
{
    let b = managed_block(ip, hosts);
    lemma_marker_ends();
    assert forall|k: int, i: int| 0 <= k < b.len() && 0 <= i < b[k].len() implies #[trigger] b[k][i]
        != '\n' by {
        if k >= 2 {
            assert(b[k] == entry(ip, hosts[k - 2]));
            assert(is_single_line(hosts[k - 2]));
            if i > ip.len() {
                assert(b[k][i] == hosts[k - 2][i - ip.len() - 1]);
            }
        }
    }
    assert forall|k: int| 0 <= k < b.len() implies !is_retained(#[trigger] b[k], hosts) by {
        if k == 0 {
            assert(is_blank(b[0]));
        } else if k == 1 {
            assert(MARKER@.subrange(0, MARKER@.len() as int) =~= MARKER@);
            assert(is_marker_line(MARKER@));
        } else {
            let h = hosts[k - 2];
            let e = entry(ip, h);
            assert(b[k] == e);
            assert(e.subrange(ip.len() as int, ip.len() as int + 1 + h.len()) == seq![' '] + h);
            assert(e.subrange(ip.len() as int + 1, ip.len() as int + 1 + h.len()) =~= h);
            assert(contains(e, hosts[k - 2]));
        }
    }
}

/// The lines of a rewritten file are the retained lines of the old one,
/// then the managed block.
proof fn lemma_lines_of_rewrite(content: Seq<char>, ip: Seq<char>, hosts: Seq<Seq<char>>)
    requires
        is_single_line(ip),
        forall|k: int| 0 <= k < hosts.len() ==> is_single_line(#[trigger] hosts[k]),
    ensures
        lines(rewritten(content, ip, hosts)) == retained_lines(content, hosts) + managed_block(
            ip,
            hosts,
        ),
        forall|k: int|
            0 <= k < retained_lines(content, hosts).len() ==> is_retained(
                #[trigger] retained_lines(content, hosts)[k],
                hosts,
            ),
{
    let pred = |l: Seq<char>| is_retained(l, hosts);
    let r = retained_lines(content, hosts);
    let b = managed_block(ip, hosts);
    lemma_lines_no_newline(content);
    lemma_block_shape(ip, hosts);
    assert forall|k: int, i: int| 0 <= k < r.len() && 0 <= i < r[k].len() implies #[trigger] r[k][i]
        != '\n' by {
        lemma_filter_contains_in(lines(content), pred, k);
        let m = choose|m: int| 0 <= m < lines(content).len() && lines(content)[m] == r[k];
        assert(lines(content)[m][i] != '\n');
    }
    assert forall|k: int, i: int|
        0 <= k < (r + b).len() && 0 <= i < (r + b)[k].len() implies #[trigger] (r + b)[k][i]
        != '\n' by {
        if k < r.len() {
            assert((r + b)[k] == r[k]);
        } else {
            assert((r + b)[k] == b[k - r.len()]);
        }
    }
    lemma_join_add(r, b);
    lemma_lines_join(r + b);
    assert forall|k: int| 0 <= k < r.len() implies is_retained(#[trigger] r[k], hosts) by {
        lines(content).lemma_filter_pred(pred, k);
    }
}

/// The lines of a rewritten file that are carried over by a further rewrite
/// are those that the first rewrite carried over.
proof fn lemma_retained_after_rewrite(content: Seq<char>, ip: Seq<char>, hosts: Seq<Seq<char>>)
    requires
        is_single_line(ip),
        forall|k: int| 0 <= k < hosts.len() ==> is_single_line(#[trigger] hosts[k]),
    ensures
        retained_lines(rewritten(content, ip, hosts), hosts) == retained_lines(content, hosts),
{
    let pred = |l: Seq<char>| is_retained(l, hosts);
    let r = retained_lines(content, hosts);
    let b = managed_block(ip, hosts);
    lemma_lines_of_rewrite(content, ip, hosts);
    lemma_block_shape(ip, hosts);
    Seq::filter_distributes_over_add(r, b, pred);
    lemma_filter_all(r, pred);
    lemma_filter_none(b, pred);
    assert(r + Seq::<Seq<char>>::empty() =~= r);
}

/// Rewriting twice with the same address gives the text of rewriting once:
/// the second rewrite changes nothing. This holds wherever the address and
/// the hostnames are single lines.
pub proof fn lemma_rewrite_idempotent(content: Seq<char>, ip: Seq<char>, hosts: Seq<Seq<char>>)
    requires
        is_single_line(ip),
        forall|k: int| 0 <= k < hosts.len() ==> is_single_line(#[trigger] hosts[k]),
    ensures
        rewritten(rewritten(content, ip, hosts), ip, hosts) == rewritten(content, ip, hosts),
{
    lemma_retained_after_rewrite(content, ip, hosts);
}

/// A rewrite with address `b` after one with address `a` gives the text of a
/// single rewrite with `b`: the managed block of `a` leaves no trace. The
/// new file's lines are the retained lines of the old one, none of them
/// blank, naming a managed hostname or being the marker, then the managed
/// block of `b`, once. This holds wherever the addresses and the hostnames
/// are single lines.
pub proof fn lemma_rewrite_replaces_block(
    content: Seq<char>,
    a: Seq<char>,
    b: Seq<char>,
    hosts: Seq<Seq<char>>,
)
    requires
        is_single_line(a),
        is_single_line(b),
        forall|k: int| 0 <= k < hosts.len() ==> is_single_line(#[trigger] hosts[k]),
    ensures
        rewritten(rewritten(content, a, hosts), b, hosts) == rewritten(content, b, hosts),
        lines(rewritten(rewritten(content, a, hosts), b, hosts)) == retained_lines(content, hosts)
            + managed_block(b, hosts),
        forall|k: int|
            0 <= k < retained_lines(content, hosts).len() ==> is_retained(
                #[trigger] retained_lines(content, hosts)[k],
                hosts,
            ),
{
    lemma_retained_after_rewrite(content, a, hosts);
    lemma_lines_of_rewrite(content, b, hosts);
}

/// Filtering keeps two passing elements in their order.
proof fn lemma_filter_order(s: Seq<Seq<char>>, pred: spec_fn(Seq<char>) -> bool, i: int, j: int)
    requires
        0 <= i < j < s.len(),
        pred(s[i]),
        pred(s[j]),
    ensures
        exists|p: int, q: int|
            0 <= p < q < s.filter(pred).len() && #[trigger] s.filter(pred)[p] == s[i]
                && #[trigger] s.filter(pred)[q] == s[j],
    decreases s.len(),
{
    reveal(Seq::filter);
    let pre = s.drop_last();
    let fp = pre.filter(pred);
    if j == s.len() - 1 {
        assert(pre[i] == s[i]);
        pre.lemma_filter_contains(pred, i);
        let p = choose|p: int| 0 <= p < fp.len() && fp[p] == s[i];
        assert(s.filter(pred) == fp.push(s[j]));
        assert(s.filter(pred)[p] == s[i]);
        assert(s.filter(pred)[fp.len() as int] == s[j]);
    } else {
        assert(pre[i] == s[i] && pre[j] == s[j]);
        lemma_filter_order(pre, pred, i, j);
        let (p, q) = choose|p: int, q: int|
            0 <= p < q < fp.len() && #[trigger] fp[p] == s[i] && #[trigger] fp[q] == s[j];
        if pred(s.last()) {
            assert(s.filter(pred) == fp.push(s.last()));
            assert(s.filter(pred)[p] == s[i] && s.filter(pred)[q] == s[j]);
        } else {
            assert(s.filter(pred) == fp);
        }
    }
}

/// A rewrite keeps every line of the old text that is not blank, mentions
/// no managed hostname and is not the marker comment: the new file's lines
/// open with exactly those lines, verbatim, and any two of them stay in their
/// order. This holds wherever the address and the hostnames are single lines.
pub proof fn lemma_unmanaged_lines_kept(
    content: Seq<char>,
    ip: Seq<char>,
    hosts: Seq<Seq<char>>,
    i: int,
    j: int,
)
    requires
        is_single_line(ip),
        forall|k: int| 0 <= k < hosts.len() ==> is_single_line(#[trigger] hosts[k]),
        0 <= i < j < lines(content).len(),
        is_retained(lines(content)[i], hosts),
        is_retained(lines(content)[j], hosts),
    ensures
        lines(rewritten(content, ip, hosts)).subrange(0, retained_lines(content, hosts).len() as int)
            == retained_lines(content, hosts),
        exists|p: int, q: int|
            0 <= p < q < retained_lines(content, hosts).len() && #[trigger] lines(
                rewritten(content, ip, hosts),
            )[p] == lines(content)[i] && #[trigger] lines(rewritten(content, ip, hosts))[q]
                == lines(content)[j],
{
    let pred = |l: Seq<char>| is_retained(l, hosts);
    let ls = lines(content);
    let r = retained_lines(content, hosts);
    let out = lines(rewritten(content, ip, hosts));
    lemma_lines_of_rewrite(content, ip, hosts);
    assert(out.subrange(0, r.len() as int) =~= r);
    assert(r == ls.filter(pred));
    lemma_filter_order(ls, pred, i, j);
    let (p, q) = choose|p: int, q: int|
        0 <= p < q < ls.filter(pred).len() && #[trigger] ls.filter(pred)[p] == ls[i]
            && #[trigger] ls.filter(pred)[q] == ls[j];
    assert(out[p] == r[p] && out[q] == r[q]);
}

} // verus!
