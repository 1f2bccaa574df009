use vstd::prelude::*;

use crate::text::{chars_of, matches_at, prefix_at, same_text, trim, trim_bounds};

verus! {

/// One `[submodule "<name>"]` section of a `.gitmodules` file.
#[derive(Debug)]
pub struct GitSubmodule {
    pub name: String,
    pub path: String,
    pub url: String,
    pub branch: Option<String>,
}

/// The declarations of one `.gitmodules` file, in the order of the file.
#[derive(Debug)]
pub struct GitModules {
    pub submodules: Vec<GitSubmodule>,
}

/// What a section holds, as character sequences.
pub struct SubmoduleView {
    pub name: Seq<char>,
    pub path: Seq<char>,
    pub url: Seq<char>,
    pub branch: Option<Seq<char>>,
}

impl View for GitSubmodule {
    type V = SubmoduleView;

    open spec fn view(&self) -> SubmoduleView {
        SubmoduleView {
            name: self.name@,
            path: self.path@,
            url: self.url@,
            branch: match self.branch {
                Some(b) => Some(b@),
                None => None,
            },
        }
    }
}

impl View for GitModules {
    type V = Seq<SubmoduleView>;

    open spec fn view(&self) -> Seq<SubmoduleView> {
        self.submodules@.map_values(|m: GitSubmodule| m@)
    }
}

/// Why a `.gitmodules` text was not accepted.
#[derive(Debug, Clone, Copy, PartialEq, Eq, Structural)]
pub enum ParseError {
    /// A section does not open with `[submodule `.
    MissingSectionHeader,
    /// A section name does not start with a `"`.
    MissingOpeningQuote,
    /// A section name is not closed by `"]`.
    MissingClosingQuote,
    /// The text ended where a section or a `key = value` line could start.
    EndOfInput,
}

/// The white space skipped between sections and lines.
pub open spec fn is_blank(c: char) -> bool {
    c == ' ' || c == '\t' || c == '\n'
}

/// The first index from `i` on that holds no blank.
pub open spec fn skip_blank(s: Seq<char>, i: int) -> int
    decreases s.len() - i,
{
    if 0 <= i < s.len() && is_blank(s[i]) {
        skip_blank(s, i + 1)
    } else {
        i
    }
}

/// The first index from `i` on that holds `c`.
pub open spec fn find_char(s: Seq<char>, i: int, c: char) -> Option<int>
    decreases s.len() - i,
{
    if i < 0 || i >= s.len() {
        None
    } else if s[i] == c {
        Some(i)
    } else {
        find_char(s, i + 1, c)
    }
}

/// The first index from `i` on where `"]` starts.
pub open spec fn find_close(s: Seq<char>, i: int) -> Option<int>
    decreases s.len() - i,
{
    if i < 0 || i + 1 >= s.len() {
        None
    } else if s[i] == '"' && s[i + 1] == ']' {
        Some(i)
    } else {
        find_close(s, i + 1)
    }
}

/// Where the text that starts at `i` and runs up to the next `c` ends.
pub open spec fn until(s: Seq<char>, i: int, c: char) -> int {
    match find_char(s, i, c) {
        Some(p) => p,
        None => s.len() as int,
    }
}

/// Where reading resumes after that text and its `c`.
pub open spec fn past(s: Seq<char>, i: int, c: char) -> int {
    match find_char(s, i, c) {
        Some(p) => p + 1,
        None => s.len() as int,
    }
}

/// The keyword that opens a section.
pub open spec fn section_keyword() -> Seq<char> {
    seq!['[', 's', 'u', 'b', 'm', 'o', 'd', 'u', 'l', 'e', ' ']
}

/// The `key = value` lines of a section body that starts at `i`, in order,
/// each trimmed, and the index where the body ends.
pub open spec fn entries_from(s: Seq<char>, i: int) -> (Seq<(Seq<char>, Seq<char>)>, int)
    decreases s.len() - i,
    via entries_from_decreases
{
    let j = skip_blank(s, i);
    if j < s.len() && s[j] == '[' {
        (seq![], j)
    } else {
        match find_char(s, j, '=') {
            None => (seq![], j),
            Some(e) => {
                let entry = (trim(s.subrange(j, e)), trim(s.subrange(e + 1, until(s, e + 1, '\n'))));
                let rest = entries_from(s, past(s, e + 1, '\n'));
                (seq![entry] + rest.0, rest.1)
            },
        }
    }
}

/// The value of the last line with the given key.
pub open spec fn lookup(entries: Seq<(Seq<char>, Seq<char>)>, key: Seq<char>) -> Option<Seq<char>>
    decreases entries.len(),
{
    if entries.len() == 0 {
        None
    } else if entries.last().0 == key {
        Some(entries.last().1)
    } else {
        lookup(entries.drop_last(), key)
    }
}

pub open spec fn or_empty(v: Option<Seq<char>>) -> Seq<char> {
    match v {
        Some(t) => t,
        None => seq![],
    }
}

/// The declaration of a section with this name and these lines.
pub open spec fn submodule_of(name: Seq<char>, entries: Seq<(Seq<char>, Seq<char>)>) -> SubmoduleView {
    SubmoduleView {
        name,
        path: or_empty(lookup(entries, "path"@)),
        url: or_empty(lookup(entries, "url"@)),
        branch: lookup(entries, "branch"@),
    }
}

/// The section that starts at `i`, after blanks, and the index after it.
pub open spec fn section_from(s: Seq<char>, i: int) -> Result<(SubmoduleView, int), ParseError> {
    let j = skip_blank(s, i);
    if j >= s.len() {
        Err(ParseError::EndOfInput)
    } else if !prefix_at(s, j, section_keyword()) {
        Err(ParseError::MissingSectionHeader)
    } else {
        match quoted_from(s, j + 11) {
            Err(e) => Err(e),
            Ok((name, k)) => {
                let body = entries_from(s, k);
                Ok((submodule_of(name, body.0), body.1))
            },
        }
    }
}

/// A name in quotes that starts at `i` and ends with `"]`, and the index
/// after it.
pub open spec fn quoted_from(s: Seq<char>, i: int) -> Result<(Seq<char>, int), ParseError> {
    if !(0 <= i < s.len() && s[i] == '"') {
        Err(ParseError::MissingOpeningQuote)
    } else {
        match find_close(s, i + 1) {
            None => Err(ParseError::MissingClosingQuote),
            Some(c) => Ok((s.subrange(i + 1, c), c + 2)),
        }
    }
}

/// The sections from index `i` to the end of the text; the text may end
/// after blanks where a section could start.
pub open spec fn sections_from(s: Seq<char>, i: int) -> Result<Seq<SubmoduleView>, ParseError>
    decreases s.len() - i,
    via sections_from_decreases
{
    match section_from(s, i) {
        Err(ParseError::EndOfInput) => Ok(seq![]),
        Err(e) => Err(e),
        Ok((m, k)) => prepend(seq![m], sections_from(s, k)),
    }
}

/// What a whole `.gitmodules` text declares.
pub open spec fn gitmodules_of(s: Seq<char>) -> Result<Seq<SubmoduleView>, ParseError> {
    sections_from(s, 0)
}

pub open spec fn prepend(done: Seq<SubmoduleView>, r: Result<Seq<SubmoduleView>, ParseError>) -> Result<
    Seq<SubmoduleView>,
    ParseError,
> {
    match r {
        Ok(rest) => Ok(done + rest),
        Err(e) => Err(e),
    }
}

/// Whether some declaration has the path `p`.
pub open spec fn declares(ms: Seq<SubmoduleView>, p: Seq<char>) -> bool {
    exists|i: int| 0 <= i < ms.len() && ms[i].path == p
}

pub open spec fn modules_result(r: Result<GitModules, ParseError>) -> Result<Seq<SubmoduleView>, ParseError> {
    match r {
        Ok(g) => Ok(g@),
        Err(e) => Err(e),
    }
}

/// One `key = value` line.
pub open spec fn line(key: Seq<char>, value: Seq<char>) -> Seq<char> {
    key + seq![' ', '=', ' '] + value + seq!['\n']
}

/// The text of one section: its header, then its path, url and branch lines.
pub open spec fn render_section(m: SubmoduleView) -> Seq<char> {
    section_keyword() + seq!['"'] + m.name + seq!['"', ']', '\n'] + line("path"@, m.path) + line("url"@, m.url)
        + match m.branch {
        Some(b) => line("branch"@, b),
        None => seq![],
    }
}

/// The text of the sections, one after another.
pub open spec fn render(ms: Seq<SubmoduleView>) -> Seq<char>
    decreases ms.len(),
{
    if ms.len() == 0 {
        seq![]
    } else {
        render(ms.drop_last()) + render_section(ms.last())
    }
}

/// A value that reads back as itself: no white space around it and no line
/// feed in it.
pub open spec fn plain_value(v: Seq<char>) -> bool {
    trim(v) == v && !v.contains('\n')
}

/// A declaration that its section text gives back: the name holds no `"]`
/// and the values are plain.
pub open spec fn well_formed(m: SubmoduleView) -> bool {
    &&& forall|q: int| 0 <= q < m.name.len() - 1 ==> !(#[trigger] m.name[q] == '"' && m.name[q + 1] == ']')
    &&& plain_value(m.path)
    &&& plain_value(m.url)
    &&& m.branch matches Some(b) ==> plain_value(b)
}

proof fn lemma_find_char_at(s: Seq<char>, i: int, p: int, c: char)
    requires
        0 <= i <= p < s.len(),
        s[p] == c,
        forall|q: int| i <= q < p ==> s[q] != c,
    ensures
        find_char(s, i, c) == Some(p),
    decreases p - i,
{
    if i < p {
        lemma_find_char_at(s, i + 1, p, c);
    }
}

proof fn lemma_find_close_at(s: Seq<char>, i: int, p: int)
    requires
        0 <= i <= p,
        p + 1 < s.len(),
        s[p] == '"' && s[p + 1] == ']',
        forall|q: int| i <= q < p ==> !(#[trigger] s[q] == '"' && s[q + 1] == ']'),
    ensures
        find_close(s, i) == Some(p),
    decreases p - i,
{
    if i < p {
        lemma_find_close_at(s, i + 1, p);
    }
}

proof fn lemma_trim_key(k: Seq<char>)
    requires
        k.len() > 0,
        !crate::text::is_white_space(k[0]),
        !crate::text::is_white_space(k.last()),
    ensures
        trim(k + seq![' ']) == k,
{
    let t = k + seq![' '];
    assert(trim(k) == k);
    assert(t[0] == k[0]);
    assert(t.drop_last() =~= k);
}

proof fn lemma_trim_value(v: Seq<char>)
    requires
        trim(v) == v,
    ensures
        trim(seq![' '] + v) == v,
{
    assert((seq![' '] + v).drop_first() =~= v);
}

/// The keys a section writes: not blank, not `[` and without `=` or white
/// space at their ends.
pub open spec fn key_shape(k: Seq<char>) -> bool {
    &&& k.len() > 0
    &&& !is_blank(k[0]) && k[0] != '['
    &&& !crate::text::is_white_space(k[0]) && !crate::text::is_white_space(k.last())
    &&& !k.contains('=')
}

proof fn lemma_key_shapes()
    ensures
        key_shape("path"@),
        key_shape("url"@),
        key_shape("branch"@),
{
    reveal_strlit("path");
    reveal_strlit("url");
    reveal_strlit("branch");
}

/// Where the text holds `line(k, v)` from `b` on, the section body from `b`
/// reads the pair `(k, v)` and goes on after the line.
proof fn lemma_line(s: Seq<char>, b: int, k: Seq<char>, v: Seq<char>)
    requires
        0 <= b,
        b + line(k, v).len() <= s.len(),
        s.subrange(b, b + line(k, v).len()) == line(k, v),
        key_shape(k),
        plain_value(v),
    ensures
        entries_from(s, b).0 == seq![(k, v)] + entries_from(s, b + line(k, v).len()).0,
        entries_from(s, b).1 == entries_from(s, b + line(k, v).len()).1,
{
    let l = line(k, v);
    let kl = k.len() as int;
    let e = b + kl + 1;
    let n = b + kl + 3 + v.len();
    let vl = v.len() as int;
    assert forall|t: int| 0 <= t < l.len() implies s[b + t] == l[t] by {
        assert(s.subrange(b, b + l.len())[t] == s[b + t]);
    }
    assert forall|t: int| 0 <= t < kl implies l[t] == k[t] by {}
    assert(l[kl] == ' ' && l[kl + 1] == '=' && l[kl + 2] == ' ');
    assert forall|t: int| kl + 3 <= t < kl + 3 + vl implies l[t] == v[t - kl - 3] by {}
    assert(l[kl + 3 + vl] == '\n');
    assert(s[b] == l[0]);
    assert(skip_blank(s, b) == b);
    assert forall|q: int| b <= q < e implies s[q] != '=' by {
        assert(s[q] == l[q - b]);
        if q < b + kl {
            assert(l[q - b] == k[q - b]);
        }
    }
    assert(s[e] == l[kl + 1]);
    lemma_find_char_at(s, b, e, '=');
    assert forall|q: int| e + 1 <= q < n implies s[q] != '\n' by {
        assert(s[q] == l[q - b]);
        if q > e + 1 {
            assert(l[q - b] == v[q - e - 2]);
        }
    }
    assert(s[n] == l[n - b]);
    lemma_find_char_at(s, e + 1, n, '\n');
    assert(s.subrange(b, e) =~= k + seq![' ']);
    lemma_trim_key(k);
    assert forall|t: int| 0 <= t < vl + 1 implies s.subrange(e + 1, n)[t] == (seq![' '] + v)[t] by {
        assert(s.subrange(e + 1, n)[t] == s[e + 1 + t]);
        assert(s[e + 1 + t] == l[kl + 2 + t]);
    }
    assert(s.subrange(e + 1, n) =~= seq![' '] + v);
    lemma_trim_value(v);
}

proof fn lemma_split(s: Seq<char>, b: int, x: Seq<char>, y: Seq<char>)
    requires
        0 <= b,
        b + x.len() + y.len() <= s.len(),
        s.subrange(b, b + x.len() + y.len()) == x + y,
    ensures
        s.subrange(b, b + x.len()) == x,
        s.subrange(b + x.len(), b + x.len() + y.len()) == y,
{
    let w = s.subrange(b, b + x.len() + y.len());
    assert forall|t: int| 0 <= t < x.len() implies s.subrange(b, b + x.len())[t] == x[t] by {
        assert(w[t] == s[b + t]);
        assert((x + y)[t] == x[t]);
    }
    assert forall|t: int| 0 <= t < y.len() implies s.subrange(b + x.len(), b + x.len() + y.len())[t]
        == y[t] by {
        assert(w[x.len() + t] == s[b + x.len() + t]);
        assert((x + y)[x.len() + t] == y[t]);
    }
    assert(s.subrange(b, b + x.len()) =~= x);
    assert(s.subrange(b + x.len(), b + x.len() + y.len()) =~= y);
}

/// The section body read from where the text ends or the next section
/// starts is empty.
proof fn lemma_body_end(s: Seq<char>, e: int)
    requires
        0 <= e <= s.len(),
        e == s.len() || s[e] == '[',
    ensures
        entries_from(s, e).0 == Seq::<(Seq<char>, Seq<char>)>::empty(),
        entries_from(s, e).1 == e,
{
    assert(skip_blank(s, e) == e);
}

/// Where the text holds `render_section(m)` from `b` on, followed by the end
/// of the text or by the `[` of another section, reading a section from `b`
/// gives `m` back and goes on after its text.
proof fn lemma_section(s: Seq<char>, b: int, m: SubmoduleView)
    requires
        0 <= b,
        b + render_section(m).len() <= s.len(),
        s.subrange(b, b + render_section(m).len()) == render_section(m),
        well_formed(m),
        b + render_section(m).len() == s.len() || s[b + render_section(m).len()] == '[',
    ensures
        section_from(s, b) == Ok::<(SubmoduleView, int), ParseError>((m, b + render_section(m).len())),
{
    let kw = section_keyword();
    let nm = m.name;
    let n = nm.len() as int;
    let q1 = kw + seq!['"'];
    let q2 = q1 + nm;
    let h = q2 + seq!['"', ']', '\n'];
    let lp = line("path"@, m.path);
    let lu = line("url"@, m.url);
    let lb = match m.branch {
        Some(v) => line("branch"@, v),
        None => seq![],
    };
    let r = render_section(m);
    assert(r == h + lp + lu + lb);
    let e = b + r.len();
    lemma_split(s, b, h + lp + lu, lb);
    lemma_split(s, b, h + lp, lu);
    lemma_split(s, b, h, lp);
    lemma_split(s, b, q2, seq!['"', ']', '\n']);
    lemma_split(s, b, q1, nm);
    lemma_split(s, b, kw, seq!['"']);
    let hb = s.subrange(b, b + h.len());
    let cb = s.subrange(b + q2.len(), b + h.len());
    assert(s[b] == hb[0]);
    assert(hb[0] == '[');
    assert(skip_blank(s, b) == b);
    assert(prefix_at(s, b, kw));
    assert(s[b + 11] == s.subrange(b + kw.len(), b + q1.len())[0]);
    let c = b + 12 + n;
    assert(s[c] == cb[0] && s[c + 1] == cb[1] && s[c + 2] == cb[2]);
    let nb = s.subrange(b + 12, c);
    assert forall|q: int| b + 12 <= q < c implies !(#[trigger] s[q] == '"' && s[q + 1] == ']') by {
        assert(s[q] == nb[q - b - 12]);
        if q + 1 < c {
            assert(s[q + 1] == nb[q + 1 - b - 12]);
        }
    }
    lemma_find_close_at(s, b + 12, c);
    assert(quoted_from(s, b + 11) == Ok::<(Seq<char>, int), ParseError>((nm, c + 2)));

    lemma_key_shapes();
    lemma_keys_differ();
    let p0 = b + h.len();
    assert(skip_blank(s, c + 2) == skip_blank(s, p0));
    assert(entries_from(s, c + 2) == entries_from(s, p0));
    let p1 = p0 + lp.len();
    let p2 = p1 + lu.len();
    lemma_line(s, p0, "path"@, m.path);
    lemma_line(s, p1, "url"@, m.url);
    let pp = ("path"@, m.path);
    let uu = ("url"@, m.url);
    match m.branch {
        Some(v) => {
            lemma_line(s, p2, "branch"@, v);
            lemma_body_end(s, e);
            let bb = ("branch"@, v);
            let es = seq![pp] + (seq![uu] + (seq![bb] + Seq::<(Seq<char>, Seq<char>)>::empty()));
            assert(entries_from(s, p0).0 == es);
            assert(es =~= seq![pp, uu, bb]);
            assert(es.drop_last() =~= seq![pp, uu]);
            assert(es.drop_last().drop_last() =~= seq![pp]);
            let e1 = es.drop_last();
            let e2 = e1.drop_last();
            assert(lookup(es, "branch"@) == Some(v));
            assert(lookup(e1, "url"@) == Some(m.url));
            assert(lookup(es, "url"@) == lookup(e1, "url"@));
            assert(lookup(e2, "path"@) == Some(m.path));
            assert(lookup(e1, "path"@) == lookup(e2, "path"@));
            assert(lookup(es, "path"@) == lookup(e1, "path"@));
            assert(submodule_of(nm, es) == m);
        },
        None => {
            assert(p2 == e);
            lemma_body_end(s, e);
            let es = seq![pp] + (seq![uu] + Seq::<(Seq<char>, Seq<char>)>::empty());
            assert(entries_from(s, p0).0 == es);
            assert(es =~= seq![pp, uu]);
            assert(es.drop_last() =~= seq![pp]);
            assert(es.drop_last().drop_last() =~= Seq::<(Seq<char>, Seq<char>)>::empty());
            let e1 = es.drop_last();
            let e2 = e1.drop_last();
            assert(lookup(e2, "branch"@) is None);
            assert(lookup(e1, "branch"@) == lookup(e2, "branch"@));
            assert(lookup(es, "branch"@) == lookup(e1, "branch"@));
            assert(lookup(es, "url"@) == Some(m.url));
            assert(lookup(e1, "path"@) == Some(m.path));
            assert(lookup(es, "path"@) == lookup(e1, "path"@));
            assert(submodule_of(nm, es) == m);
        },
    }
}

proof fn lemma_render_prefix(ms: Seq<SubmoduleView>, k: int)
    requires
        0 <= k <= ms.len(),
    ensures
        render(ms.take(k)).len() <= render(ms).len(),
        render(ms).subrange(0, render(ms.take(k)).len() as int) == render(ms.take(k)),
    decreases ms.len(),
{
    if k == ms.len() {
        assert(ms.take(k) =~= ms);
        assert(render(ms).subrange(0, render(ms).len() as int) =~= render(ms));
    } else {
        let t = ms.drop_last();
        lemma_render_prefix(t, k);
        assert(t.take(k) =~= ms.take(k));
        let x = render(ms.take(k)).len() as int;
        assert(render(ms).subrange(0, x) =~= render(t).subrange(0, x));
    }
}

proof fn lemma_section_starts(m: SubmoduleView)
    ensures
        render_section(m).len() > 0,
        render_section(m)[0] == '[',
{
    let r = render_section(m);
    let kw = section_keyword();
    assert(r == kw + (r.subrange(kw.len() as int, r.len() as int)));
}

/// Reading sections from where the `k`-th section of `render(ms)` starts
/// gives the declarations from the `k`-th on.
proof fn lemma_sections_render(ms: Seq<SubmoduleView>, k: int)
    requires
        0 <= k <= ms.len(),
        forall|i: int| 0 <= i < ms.len() ==> well_formed(#[trigger] ms[i]),
    ensures
        sections_from(render(ms), render(ms.take(k)).len() as int) == Ok::<Seq<SubmoduleView>, ParseError>(
            ms.subrange(k, ms.len() as int),
        ),
    decreases ms.len() - k,
{
    let s = render(ms);
    let n = ms.len() as int;
    if k == n {
        assert(ms.take(k) =~= ms);
        assert(skip_blank(s, s.len() as int) == s.len());
        assert(ms.subrange(k, n) =~= Seq::<SubmoduleView>::empty());
    } else {
        lemma_sections_render(ms, k + 1);
        let x = render(ms.take(k));
        let sec = render_section(ms[k]);
        assert(ms.take(k + 1).drop_last() =~= ms.take(k));
        assert(ms.take(k + 1).last() == ms[k]);
        assert(render(ms.take(k + 1)) == x + sec);
        lemma_render_prefix(ms, k + 1);
        lemma_split(s, 0, x, sec);
        let e: int = x.len() as int + sec.len() as int;
        if k + 1 < n {
            lemma_render_prefix(ms, k + 2);
            assert(ms.take(k + 2).drop_last() =~= ms.take(k + 1));
            assert(ms.take(k + 2).last() == ms[k + 1]);
            let nxt = render_section(ms[k + 1]);
            assert(render(ms.take(k + 2)) == (x + sec) + nxt);
            lemma_section_starts(ms[k + 1]);
            assert(s[e] == s.subrange(0, render(ms.take(k + 2)).len() as int)[e]);
            assert(((x + sec) + nxt)[e] == nxt[0]);
        } else {
            assert(ms.take(k + 1) =~= ms);
        }
        lemma_section(s, x.len() as int, ms[k]);
        assert(seq![ms[k]] + ms.subrange(k + 1, n) =~= ms.subrange(k, n));
    }
}

/// Parsing the text of well-formed declarations gives them back, in order:
/// as many declarations as sections, each with its name, path, url and
/// branch.
pub proof fn lemma_parse_round_trip(ms: Seq<SubmoduleView>)
    requires
        forall|i: int| 0 <= i < ms.len() ==> well_formed(#[trigger] ms[i]),
    ensures
        gitmodules_of(render(ms)) == Ok::<Seq<SubmoduleView>, ParseError>(ms),
{
    lemma_sections_render(ms, 0);
    assert(ms.take(0) =~= Seq::<SubmoduleView>::empty());
    assert(ms.subrange(0, ms.len() as int) =~= ms);
}

proof fn lemma_skip_blank(s: Seq<char>, i: int)
    requires
        0 <= i <= s.len(),
    ensures
        i <= skip_blank(s, i) <= s.len(),
        skip_blank(s, i) < s.len() ==> !is_blank(s[skip_blank(s, i)]),
    decreases s.len() - i,
{
    if i < s.len() && is_blank(s[i]) {
        lemma_skip_blank(s, i + 1);
    }
}

proof fn lemma_find_char(s: Seq<char>, i: int, c: char)
    requires
        0 <= i,
    ensures
        find_char(s, i, c) matches Some(p) ==> i <= p < s.len() && s[p] == c,
    decreases s.len() - i,
{
    if i < s.len() && s[i] != c {
        lemma_find_char(s, i + 1, c);
    }
}

proof fn lemma_find_close(s: Seq<char>, i: int)
    requires
        0 <= i,
    ensures
        find_close(s, i) matches Some(p) ==> i <= p && p + 1 < s.len(),
    decreases s.len() - i,
{
    if i + 1 < s.len() && !(s[i] == '"' && s[i + 1] == ']') {
        lemma_find_close(s, i + 1);
    }
}

proof fn lemma_past(s: Seq<char>, i: int, c: char)
    requires
        0 <= i <= s.len(),
    ensures
        i <= until(s, i, c) <= s.len(),
        i <= past(s, i, c) <= s.len(),
        until(s, i, c) < past(s, i, c) || until(s, i, c) == past(s, i, c) == s.len(),
{
    lemma_find_char(s, i, c);
}

proof fn lemma_entries_step(s: Seq<char>, i: int, e: int)
    requires
        0 <= i <= s.len(),
        !(skip_blank(s, i) < s.len() && s[skip_blank(s, i)] == '['),
        find_char(s, skip_blank(s, i), '=') == Some(e),
    ensures
        entries_from(s, i).0 == seq![
            (
                trim(s.subrange(skip_blank(s, i), e)),
                trim(s.subrange(e + 1, until(s, e + 1, '\n'))),
            ),
        ] + entries_from(s, past(s, e + 1, '\n')).0,
        entries_from(s, i).1 == entries_from(s, past(s, e + 1, '\n')).1,
{
}

/// The three keys a declaration keeps, read back after one more line.
proof fn lemma_lookup_push(entries: Seq<(Seq<char>, Seq<char>)>, entry: (Seq<char>, Seq<char>))
    ensures
        forall|key: Seq<char>|
            #[trigger] lookup(entries.push(entry), key) == if entry.0 == key {
                Some(entry.1)
            } else {
                lookup(entries, key)
            },
{
    assert(entries.push(entry).drop_last() =~= entries);
}

proof fn lemma_keys_differ()
    ensures
        "path"@ != "url"@,
        "path"@ != "branch"@,
        "url"@ != "branch"@,
{
    reveal_strlit("path");
    reveal_strlit("url");
    reveal_strlit("branch");
    assert("path"@.len() == 4 && "url"@.len() == 3 && "branch"@.len() == 6);
}

#[via_fn]
proof fn entries_from_decreases(s: Seq<char>, i: int) {
    if 0 <= i <= s.len() {
        let j = skip_blank(s, i);
        lemma_skip_blank(s, i);
        lemma_find_char(s, j, '=');
        if let Some(e) = find_char(s, j, '=') {
            lemma_past(s, e + 1, '\n');
        }
    }
}

proof fn lemma_entries_from(s: Seq<char>, i: int)
    requires
        0 <= i <= s.len(),
    ensures
        i <= entries_from(s, i).1 <= s.len(),
    decreases s.len() - i,
{
    let j = skip_blank(s, i);
    lemma_skip_blank(s, i);
    lemma_find_char(s, j, '=');
    if !(j < s.len() && s[j] == '[') {
        if let Some(e) = find_char(s, j, '=') {
            lemma_past(s, e + 1, '\n');
            lemma_entries_from(s, past(s, e + 1, '\n'));
        }
    }
}

proof fn lemma_section_from(s: Seq<char>, i: int)
    requires
        0 <= i <= s.len(),
    ensures
        section_from(s, i) matches Ok((m, k)) ==> i < k <= s.len(),
{
    let j = skip_blank(s, i);
    lemma_skip_blank(s, i);
    lemma_find_close(s, j + 12);
    if let Some(c) = find_close(s, j + 12) {
        lemma_entries_from(s, c + 2);
    }
}

#[via_fn]
proof fn sections_from_decreases(s: Seq<char>, i: int) {
    if 0 <= i <= s.len() {
        lemma_section_from(s, i);
    }
}


impl GitModules {
    /// Parses a `.gitmodules` text.
    pub fn parse(input: &str) -> (r: Result<GitModules, ParseError>)
        ensures
            modules_result(r) == gitmodules_of(input@),
    {
        let mut parser = GitModulesParser::new(input);
        let result = parser.parse()?;

        Ok(result)
    }

    /// Whether some declaration has exactly the path `path`.
    pub fn contains(&self, path: &str) -> (r: bool)
        ensures
            r == declares(self@, path@),
    {
        let n = self.submodules.len();
        let mut i: usize = 0;
        while i < n
            invariant
                n == self.submodules.len(),
                i <= n,
                forall|j: int| 0 <= j < i ==> self@[j].path != path@,
            decreases n - i,
        {
            if same_text(self.submodules[i].path.as_str(), path) {
                assert(self@[i as int].path == path@);
                return true;
            }
            i = i + 1;
        }
        false
    }
}

fn is_blank_char(c: char) -> (r: bool)
    ensures
        r == is_blank(c),
{
    c == ' ' || c == '\t' || c == '\n'
}

/// The first index from `i` on that holds `c`.
fn find_from(s: &Vec<char>, i: usize, c: char) -> (r: Option<usize>)
    requires
        i <= s.len(),
    ensures
        match r {
            Some(p) => find_char(s@, i as int, c) == Some(p as int) && i <= p < s.len(),
            None => find_char(s@, i as int, c) is None,
        },
{
    let mut k = i;
    while k < s.len()
        invariant
            i <= k <= s.len(),
            find_char(s@, k as int, c) == find_char(s@, i as int, c),
        decreases s.len() - k,
    {
        if s[k] == c {
            return Some(k);
        }
        k = k + 1;
    }
    None
}

/// A reader over a `.gitmodules` text that keeps its place.
struct GitModulesParser<'a> {
    input: &'a str,
    chars: Vec<char>,
    pos: usize,
}

impl<'a> GitModulesParser<'a> {
    spec fn wf(&self) -> bool {
        self.chars@ == self.input@ && self.pos <= self.chars@.len()
    }

    /// `other` reads the same text as `self`, at a place that is still valid.
    spec fn same_text(&self, other: &Self) -> bool {
        other.wf() && other.input == self.input && other.chars@ == self.chars@
    }

    fn new(input: &'a str) -> (r: Self)
        ensures
            r.wf(),
            r.input == input,
            r.pos == 0,
    {
        Self { input, chars: chars_of(input), pos: 0 }
    }

    /// The text between two indices, as a new string.
    fn slice(&self, a: usize, b: usize) -> (r: String)
        requires
            self.wf(),
            a <= b <= self.chars.len(),
        ensures
            r@ == self.chars@.subrange(a as int, b as int),
    {
        self.input.substring_char(a, b).to_owned()
    }

    fn parse(&mut self) -> (r: Result<GitModules, ParseError>)
        requires
            old(self).wf(),
        ensures
            old(self).same_text(final(self)),
            modules_result(r) == sections_from(old(self).chars@, old(self).pos as int),
    {
        let ghost s = self.chars@;
        let ghost start = self.pos as int;
        let mut result = GitModules { submodules: Vec::new() };

        while self.pos < self.chars.len()
            invariant
                old(self).same_text(self),
                s == self.chars@,
                start == old(self).pos,
                sections_from(s, start) == prepend(result@, sections_from(s, self.pos as int)),
            decreases self.chars.len() - self.pos,
        {
            let ghost before = self.pos as int;
            proof {
                lemma_section_from(s, before);
            }
            match self.parse_submodule() {
                Ok(submodule) => {
                    let ghost prev = result@;
                    proof {
                        let m = submodule@;
                        let rest = sections_from(s, self.pos as int);
                        assert(sections_from(s, before) == prepend(seq![m], rest));
                        assert(result@.push(m) =~= result@ + seq![m]);
                        match rest {
                            Ok(t) => assert(result@ + (seq![m] + t) =~= result@.push(m) + t),
                            Err(_) => {},
                        }
                    }
                    result.submodules.push(submodule);
                    assert(result@ =~= prev.push(submodule@));
                },
                Err(err) => match err {
                    ParseError::EndOfInput => {
                        proof {
                            assert(sections_from(s, before) == Ok::<Seq<SubmoduleView>, ParseError>(seq![]));
                            assert(result@ + seq![] =~= result@);
                        }
                        return Ok(result);
                    },
                    _ => {
                        assert(sections_from(s, before) == Err::<Seq<SubmoduleView>, ParseError>(err));
                        return Err(err);
                    },
                },
            }
        }
        proof {
            lemma_skip_blank(s, self.pos as int);
            assert(result@ + seq![] =~= result@);
        }
        Ok(result)
    }

    fn parse_submodule(&mut self) -> (r: Result<GitSubmodule, ParseError>)
        requires
            old(self).wf(),
        ensures
            old(self).same_text(final(self)),
            match section_from(old(self).chars@, old(self).pos as int) {
                Ok((m, k)) => r matches Ok(g) && g@ == m && final(self).pos == k,
                Err(e) => r == Err::<GitSubmodule, ParseError>(e),
            },
    {
        let ghost s = self.chars@;
        let ghost i = self.pos as int;
        // Ignore any leading whitespace
        self.eat_whitespace();
        if self.pos >= self.chars.len() {
            return Err(ParseError::EndOfInput);
        }
        // Parse the [submodule "<foo>"] section

        proof {
            reveal_strlit("[submodule ");
            assert("[submodule "@ =~= section_keyword());
        }
        self.expect_string("[submodule ")?;
        let name = self.parse_quoted_string()?;

        // Parse all key values in the section
        let ghost body = self.pos as int;
        let ghost mut done: Seq<(Seq<char>, Seq<char>)> = seq![];
        let mut path: Option<String> = None;
        let mut url: Option<String> = None;
        let mut branch: Option<String> = None;
        proof {
            lemma_find_close(s, skip_blank(s, i) + 12);
        }
        loop
            invariant
                old(self).same_text(self),
                s == self.chars@,
                i == old(self).pos,
                body <= self.pos,
                entries_from(s, body).0 == done + entries_from(s, self.pos as int).0,
                entries_from(s, body).1 == entries_from(s, self.pos as int).1,
                opt_view(path) == lookup(done, "path"@),
                opt_view(url) == lookup(done, "url"@),
                opt_view(branch) == lookup(done, "branch"@),
            ensures
                entries_from(s, self.pos as int).0 == Seq::<(Seq<char>, Seq<char>)>::empty(),
                entries_from(s, self.pos as int).1 == self.pos,
            decreases self.chars.len() - self.pos,
        {
            let ghost before = self.pos as int;
            self.eat_whitespace();
            proof {
                lemma_skip_blank(s, before);
                lemma_find_char(s, self.pos as int, '=');
            }

            if self.pos < self.chars.len() && self.chars[self.pos] == '[' {
                break;
            }

            let key = match self.parse_until_or_err('=') {
                Ok(key) => key,
                Err(_) => break,
            };
            let ghost e = self.pos - 1;
            let value = self.parse_until_eol();
            proof {
                let entry = (key@, value@);
                lemma_past(s, e + 1, '\n');
                lemma_entries_step(s, before, e);
                let rest = entries_from(s, self.pos as int);
                assert(done + (seq![entry] + rest.0) =~= done.push(entry) + rest.0);
                lemma_lookup_push(done, entry);
                lemma_keys_differ();
                done = done.push(entry);
            }
            if same_text(key.as_str(), "path") {
                path = Some(value);
            } else if same_text(key.as_str(), "url") {
                url = Some(value);
            } else if same_text(key.as_str(), "branch") {
                branch = Some(value);
            }
        }

        let path = match path {
            Some(p) => p,
            None => String::new(),
        };
        let url = match url {
            Some(u) => u,
            None => String::new(),
        };
        let submodule = GitSubmodule { name, path, url, branch };
        assert(done + seq![] =~= done);
        Ok(submodule)
    }

    /// Reads up to the next `ch`, which it passes over; the text read comes back
    /// trimmed. With no `ch` left it reads nothing.
    fn parse_until_or_err(&mut self, ch: char) -> (r: Result<String, ParseError>)
        requires
            old(self).wf(),
        ensures
            old(self).same_text(final(self)),
            match find_char(old(self).chars@, old(self).pos as int, ch) {
                Some(p) => r matches Ok(t) && t@ == trim(old(self).chars@.subrange(old(self).pos as int, p))
                    && final(self).pos == p + 1,
                None => r == Err::<String, ParseError>(ParseError::EndOfInput) && final(self).pos == old(self).pos,
            },
    {
        match find_from(&self.chars, self.pos, ch) {
            Some(pos) => {
                let (a, b) = trim_bounds(&self.chars, self.pos, pos);
                let result = self.slice(a, b);
                self.pos = pos + 1;
                Ok(result)
            },
            None => Err(ParseError::EndOfInput),
        }
    }

    /// Reads up to the next `ch`, or to the end, and passes over that `ch`; the
    /// text read comes back trimmed.
    fn parse_until(&mut self, ch: char) -> (r: String)
        requires
            old(self).wf(),
        ensures
            old(self).same_text(final(self)),
            r@ == trim(old(self).chars@.subrange(old(self).pos as int, until(old(self).chars@, old(self).pos as int, ch))),
            final(self).pos == past(old(self).chars@, old(self).pos as int, ch),
    {
        match find_from(&self.chars, self.pos, ch) {
            Some(pos) => {
                let (a, b) = trim_bounds(&self.chars, self.pos, pos);
                let result = self.slice(a, b);
                self.pos = pos + 1;
                result
            },
            None => {
                let (a, b) = trim_bounds(&self.chars, self.pos, self.chars.len());
                let result = self.slice(a, b);
                self.pos = self.chars.len();
                result
            },
        }
    }

    fn parse_until_eol(&mut self) -> (r: String)
        requires
            old(self).wf(),
        ensures
            old(self).same_text(final(self)),
            r@ == trim(old(self).chars@.subrange(old(self).pos as int, until(old(self).chars@, old(self).pos as int, '\n'))),
            final(self).pos == past(old(self).chars@, old(self).pos as int, '\n'),
    {
        self.parse_until('\n')
    }

    /// Reads `"<name>"]` and gives the name.
    fn parse_quoted_string(&mut self) -> (r: Result<String, ParseError>)
        requires
            old(self).wf(),
        ensures
            old(self).same_text(final(self)),
            match quoted_from(old(self).chars@, old(self).pos as int) {
                Ok((t, k)) => r matches Ok(x) && x@ == t && final(self).pos == k,
                Err(e) => r == Err::<String, ParseError>(e),
            },
    {
        // Find the starting "
        if !(self.pos < self.chars.len() && self.chars[self.pos] == '"') {
            return Err(ParseError::MissingOpeningQuote);
        }
        let start = self.pos + 1;
        proof {
            lemma_find_close(self.chars@, start as int);
        }

        // Find the ending "]
        let mut k = start;
        while k < self.chars.len() && k + 1 < self.chars.len()
            invariant
                old(self).same_text(self),
                self.pos == old(self).pos,
                start == old(self).pos + 1,
                self.chars@[old(self).pos as int] == '"',
                start <= k <= self.chars.len(),
                find_close(self.chars@, k as int) == find_close(self.chars@, start as int),
            decreases self.chars.len() - k,
        {
            if self.chars[k] == '"' && self.chars[k + 1] == ']' {
                assert(find_close(self.chars@, k as int) == Some(k as int));
                let result = self.slice(start, k);
                self.pos = k + 2;
                return Ok(result);
            }
            k = k + 1;
        }
        Err(ParseError::MissingClosingQuote)
    }

    /// Passes over `expected`, which must come next.
    fn expect_string(&mut self, expected: &str) -> (r: Result<(), ParseError>)
        requires
            old(self).wf(),
        ensures
            old(self).same_text(final(self)),
            prefix_at(old(self).chars@, old(self).pos as int, expected@) ==> r is Ok && final(self).pos
                == old(self).pos + expected@.len(),
            !prefix_at(old(self).chars@, old(self).pos as int, expected@) ==> r == Err::<(), ParseError>(
                ParseError::MissingSectionHeader,
            ),
    {
        if !matches_at(&self.chars, self.pos, expected) {
            return Err(ParseError::MissingSectionHeader);
        }
        let n = expected.unicode_len();
        assert(self.pos + n <= self.chars.len());
        self.pos = self.pos + n;

        Ok(())
    }

    /// Passes over spaces, tabs and line feeds.
    fn eat_whitespace(&mut self)
        requires
            old(self).wf(),
        ensures
            old(self).same_text(final(self)),
            final(self).pos == skip_blank(old(self).chars@, old(self).pos as int),
    {
        let mut pos = self.pos;
        while pos < self.chars.len() && is_blank_char(self.chars[pos])
            invariant
                self.wf(),
                self.pos <= pos <= self.chars.len(),
                skip_blank(self.chars@, pos as int) == skip_blank(self.chars@, self.pos as int),
            decreases self.chars.len() - pos,
        {
            pos = pos + 1;
        }
        self.pos = pos;
    }
}

pub open spec fn opt_view(v: Option<String>) -> Option<Seq<char>> {
    match v {
        Some(t) => Some(t@),
        None => None,
    }
}


} // verus!
