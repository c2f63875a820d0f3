//! The small markdown dialect of the scripting help: block structure
//! (headings, fenced code, tables, quotes, bullets, rules, paragraphs) and
//! inline spans (`code` and **bold**).
use vstd::prelude::*;

verus! {

/// How an inline span is shown.
#[derive(PartialEq, Eq, Structural, Clone, Copy, Debug)]
pub enum SpanKind {
    Plain,
    Code,
    Bold,
}

/// A run of text shown one way.
pub struct InlineSpan {
    pub kind: SpanKind,
    pub text: Vec<char>,
}

/// `s` holds `**` at `k`.
pub open spec fn bold_mark_at(s: Seq<char>, k: int) -> bool {
    0 <= k && k + 1 < s.len() && s[k] == '*' && s[k + 1] == '*'
}

/// The end of inline code starting at `j`: the next backquote, or the end.
pub open spec fn code_stop(s: Seq<char>, j: int) -> int
    decreases s.len() - j,
{
    if j >= s.len() || s[j] == '`' {
        j
    } else {
        code_stop(s, j + 1)
    }
}

/// The end of bold text starting at `j`: the next `**`, or the last
/// character (which bold text never takes).
pub open spec fn bold_stop(s: Seq<char>, j: int) -> int
    decreases s.len() - j,
{
    if j + 1 >= s.len() || bold_mark_at(s, j) {
        j
    } else {
        bold_stop(s, j + 1)
    }
}

/// The end of plain text starting at `j`: the next backquote or `**`, or
/// the end.
pub open spec fn plain_stop(s: Seq<char>, j: int) -> int
    decreases s.len() - j,
{
    if j >= s.len() || s[j] == '`' || bold_mark_at(s, j) {
        j
    } else {
        plain_stop(s, j + 1)
    }
}

proof fn lemma_code_stop(s: Seq<char>, j: int)
    requires
        0 <= j <= s.len(),
    ensures
        j <= code_stop(s, j) <= s.len(),
        forall|k: int| j <= k < code_stop(s, j) ==> s[k] != '`',
        code_stop(s, j) < s.len() ==> s[code_stop(s, j)] == '`',
    decreases s.len() - j,
{
    if j < s.len() && s[j] != '`' {
        lemma_code_stop(s, j + 1);
    }
}

proof fn lemma_bold_stop(s: Seq<char>, j: int)
    requires
        0 <= j <= s.len(),
    ensures
        j <= bold_stop(s, j) <= s.len(),
        bold_stop(s, j) == j || bold_stop(s, j) + 1 <= s.len(),
        forall|k: int| j <= k < bold_stop(s, j) ==> !bold_mark_at(s, k) && k + 1 < s.len(),
        bold_stop(s, j) + 1 >= s.len() || bold_mark_at(s, bold_stop(s, j)),
    decreases s.len() - j,
{
    if !(j + 1 >= s.len() || bold_mark_at(s, j)) {
        lemma_bold_stop(s, j + 1);
    }
}

proof fn lemma_plain_stop(s: Seq<char>, j: int)
    requires
        0 <= j <= s.len(),
    ensures
        j <= plain_stop(s, j) <= s.len(),
        forall|k: int| j <= k < plain_stop(s, j) ==> s[k] != '`' && !bold_mark_at(s, k),
        plain_stop(s, j) < s.len() ==> s[plain_stop(s, j)] == '`' || bold_mark_at(s, plain_stop(s, j)),
    decreases s.len() - j,
{
    if j < s.len() && s[j] != '`' && !bold_mark_at(s, j) {
        lemma_plain_stop(s, j + 1);
    }
}

/// Where parsing goes on after the inline code opened at `i`.
pub open spec fn after_code(s: Seq<char>, i: int) -> int {
    let e = code_stop(s, i + 1);
    if e < s.len() {
        e + 1
    } else {
        e
    }
}

/// Where parsing goes on after the bold text opened at `i`.
pub open spec fn after_bold(s: Seq<char>, i: int) -> int {
    let e = bold_stop(s, i + 2);
    if e + 1 < s.len() {
        e + 2
    } else {
        e
    }
}

/// The inline spans of `s` from position `i` on: a backquote opens code
/// up to the next backquote (or the end); `**` opens bold text up to the
/// next `**` (or the last character); other characters form plain text up
/// to the next opener.
pub open spec fn spans_from(s: Seq<char>, i: int) -> Seq<(SpanKind, Seq<char>)>
    decreases s.len() - i,
    via spans_from_decreases
{
    if i < 0 || i >= s.len() {
        Seq::empty()
    } else if s[i] == '`' {
        seq![(SpanKind::Code, s.subrange(i + 1, code_stop(s, i + 1)))] + spans_from(s, after_code(s, i))
    } else if bold_mark_at(s, i) {
        seq![(SpanKind::Bold, s.subrange(i + 2, bold_stop(s, i + 2)))] + spans_from(s, after_bold(s, i))
    } else {
        seq![(SpanKind::Plain, s.subrange(i, plain_stop(s, i)))] + spans_from(s, plain_stop(s, i))
    }
}

#[via_fn]
proof fn spans_from_decreases(s: Seq<char>, i: int) {
    if !(i < 0 || i >= s.len()) {
        if s[i] == '`' {
            lemma_code_stop(s, i + 1);
        } else if bold_mark_at(s, i) {
            lemma_bold_stop(s, i + 2);
        } else {
            lemma_plain_stop(s, i);
            assert(plain_stop(s, i) > i) by {
                reveal_with_fuel(plain_stop, 2);
            }
        }
    }
}

/// The view of a list of spans.
pub open spec fn spans_view(v: Seq<InlineSpan>) -> Seq<(SpanKind, Seq<char>)> {
    Seq::new(v.len(), |k: int| (v[k].kind, v[k].text@))
}

/// Copies `s[lo..hi]`.
fn copy_chars(s: &[char], lo: usize, hi: usize) -> (r: Vec<char>)
    requires
        lo <= hi <= s@.len(),
    ensures
        r@ == s@.subrange(lo as int, hi as int),
{
    let mut r: Vec<char> = Vec::new();
    let mut k = lo;
    while k < hi
        invariant
            lo <= k <= hi <= s@.len(),
            r@ == s@.subrange(lo as int, k as int),
        decreases hi - k,
    {
        r.push(s[k]);
        k = k + 1;
    }
    r
}

/// Splits a line into plain, `code` and **bold** spans.
pub fn parse_inline(s: &[char]) -> (r: Vec<InlineSpan>)
    ensures
        spans_view(r@) == spans_from(s@, 0),
{
    let n = s.len();
    let mut r: Vec<InlineSpan> = Vec::new();
    let mut i: usize = 0;
    while i < n
        invariant
            n == s@.len(),
            i <= n,
            spans_view(r@) + spans_from(s@, i as int) == spans_from(s@, 0),
        decreases n - i,
    {
        let ghost old_r = spans_view(r@);
        if s[i] == '`' {
            let mut e = i + 1;
            while e < n && s[e] != '`'
                invariant
                    i + 1 <= e <= n,
                    n == s@.len(),
                    code_stop(s@, e as int) == code_stop(s@, i + 1),
                decreases n - e,
            {
                e = e + 1;
            }
            let text = copy_chars(s, i + 1, e);
            r.push(InlineSpan { kind: SpanKind::Code, text });
            let next = if e < n {
                e + 1
            } else {
                e
            };
            proof {
                assert(spans_view(r@) =~= old_r.push((SpanKind::Code, s@.subrange(i + 1, e as int))));
                assert(next == after_code(s@, i as int));
                assert(spans_from(s@, i as int) == seq![(SpanKind::Code, s@.subrange(i + 1, e as int))]
                    + spans_from(s@, next as int));
                assert(old_r.push((SpanKind::Code, s@.subrange(i + 1, e as int))) + spans_from(s@, next as int)
                    =~= old_r + (seq![(SpanKind::Code, s@.subrange(i + 1, e as int))] + spans_from(s@, next as int)));
            }
            i = next;
        } else if i + 1 < n && s[i] == '*' && s[i + 1] == '*' {
            let mut e = i + 2;
            while n - e > 1 && !(s[e] == '*' && s[e + 1] == '*')
                invariant
                    i + 2 <= e <= n,
                    n == s@.len(),
                    bold_stop(s@, e as int) == bold_stop(s@, i + 2),
                decreases n - e,
            {
                e = e + 1;
            }
            let text = copy_chars(s, i + 2, e);
            r.push(InlineSpan { kind: SpanKind::Bold, text });
            let next = if n - e > 1 {
                e + 2
            } else {
                e
            };
            proof {
                assert(bold_stop(s@, e as int) == e);
                assert(spans_view(r@) =~= old_r.push((SpanKind::Bold, s@.subrange(i + 2, e as int))));
                assert(next == after_bold(s@, i as int));
                assert(spans_from(s@, i as int) == seq![(SpanKind::Bold, s@.subrange(i + 2, e as int))]
                    + spans_from(s@, next as int));
                assert(old_r.push((SpanKind::Bold, s@.subrange(i + 2, e as int))) + spans_from(s@, next as int)
                    =~= old_r + (seq![(SpanKind::Bold, s@.subrange(i + 2, e as int))] + spans_from(s@, next as int)));
            }
            i = next;
        } else {
            let mut e = i;
            while e < n && s[e] != '`' && !(e + 1 < n && s[e] == '*' && s[e + 1] == '*')
                invariant
                    i <= e <= n,
                    n == s@.len(),
                    plain_stop(s@, e as int) == plain_stop(s@, i as int),
                decreases n - e,
            {
                e = e + 1;
            }
            let text = copy_chars(s, i, e);
            r.push(InlineSpan { kind: SpanKind::Plain, text });
            proof {
                assert(plain_stop(s@, e as int) == e);
                assert(spans_view(r@) =~= old_r.push((SpanKind::Plain, s@.subrange(i as int, e as int))));
                assert(spans_from(s@, i as int) == seq![(SpanKind::Plain, s@.subrange(i as int, e as int))]
                    + spans_from(s@, e as int));
                assert(old_r.push((SpanKind::Plain, s@.subrange(i as int, e as int))) + spans_from(s@, e as int)
                    =~= old_r + (seq![(SpanKind::Plain, s@.subrange(i as int, e as int))] + spans_from(s@, e as int)));
            }
            i = e;
        }
    }
    proof {
        assert(spans_from(s@, n as int) =~= Seq::empty());
        assert(spans_view(r@) + Seq::empty() =~= spans_view(r@));
    }
    r
}

/// `c` has the Unicode White_Space property.
pub open spec fn white(c: char) -> bool {
    let u = c as u32;
    (0x9 <= u <= 0xD) || u == 0x20 || u == 0x85 || u == 0xA0 || u == 0x1680 || (0x2000 <= u
        <= 0x200A) || u == 0x2028 || u == 0x2029 || u == 0x202F || u == 0x205F || u == 0x3000
}

/// Whether `c` is white space.
pub fn is_white(c: char) -> (r: bool)
    ensures
        r == white(c),
{
    let u = c as u32;
    (0x9 <= u && u <= 0xD) || u == 0x20 || u == 0x85 || u == 0xA0 || u == 0x1680 || (0x2000 <= u
        && u <= 0x200A) || u == 0x2028 || u == 0x2029 || u == 0x202F || u == 0x205F || u == 0x3000
}

/// The position of the first character of `l` from `j` on that is not
/// white space, or the end.
pub open spec fn first_solid(l: Seq<char>, j: int) -> int
    decreases l.len() - j,
{
    if j >= l.len() || !white(l[j]) {
        j
    } else {
        first_solid(l, j + 1)
    }
}

/// The end of `l[..j]` without its trailing white space.
pub open spec fn solid_end(l: Seq<char>, j: int) -> int
    decreases j,
{
    if j <= 0 || !white(l[j - 1]) {
        j
    } else {
        solid_end(l, j - 1)
    }
}

/// `l` without leading white space.
pub open spec fn trim_start(l: Seq<char>) -> Seq<char> {
    l.subrange(first_solid(l, 0), l.len() as int)
}

/// `l` without leading and trailing white space.
pub open spec fn trim(l: Seq<char>) -> Seq<char> {
    let t = trim_start(l);
    t.subrange(0, solid_end(t, t.len() as int))
}

proof fn lemma_first_solid(l: Seq<char>, j: int)
    requires
        0 <= j <= l.len(),
    ensures
        j <= first_solid(l, j) <= l.len(),
    decreases l.len() - j,
{
    if j < l.len() && white(l[j]) {
        lemma_first_solid(l, j + 1);
    }
}

proof fn lemma_solid_end(l: Seq<char>, j: int)
    requires
        0 <= j <= l.len(),
    ensures
        0 <= solid_end(l, j) <= j,
    decreases j,
{
    if j > 0 && white(l[j - 1]) {
        lemma_solid_end(l, j - 1);
    }
}

/// Removes leading white space.
pub fn trim_start_chars(l: &[char]) -> (r: Vec<char>)
    ensures
        r@ == trim_start(l@),
{
    let n = l.len();
    let mut j: usize = 0;
    while j < n && is_white(l[j])
        invariant
            j <= n == l@.len(),
            first_solid(l@, j as int) == first_solid(l@, 0),
        decreases n - j,
    {
        j = j + 1;
    }
    copy_chars(l, j, n)
}

/// Removes leading and trailing white space.
pub fn trim_chars(l: &[char]) -> (r: Vec<char>)
    ensures
        r@ == trim(l@),
{
    let t = trim_start_chars(l);
    let mut e: usize = t.len();
    while e > 0 && is_white(t[e - 1])
        invariant
            e <= t@.len(),
            solid_end(t@, e as int) == solid_end(t@, t@.len() as int),
        decreases e,
    {
        e = e - 1;
    }
    copy_chars(t.as_slice(), 0, e)
}

/// `l` starts with `p`.
pub open spec fn has_prefix(l: Seq<char>, p: Seq<char>) -> bool {
    p.len() <= l.len() && l.subrange(0, p.len() as int) == p
}

/// Whether `l` starts with `p`.
pub fn starts_with_chars(l: &[char], p: &[char]) -> (r: bool)
    ensures
        r == has_prefix(l@, p@),
{
    if p.len() > l.len() {
        return false;
    }
    let mut k: usize = 0;
    while k < p.len()
        invariant
            p@.len() <= l@.len(),
            k <= p@.len(),
            forall|j: int| 0 <= j < k ==> l@[j] == p@[j],
        decreases p@.len() - k,
    {
        if l[k] != p[k] {
            proof {
                assert(l@.subrange(0, p@.len() as int)[k as int] != p@[k as int]);
            }
            return false;
        }
        k = k + 1;
    }
    proof {
        assert(l@.subrange(0, p@.len() as int) =~= p@);
    }
    true
}

/// The first `|` of `t` from `j` on, or the end.
pub open spec fn pipe_at(t: Seq<char>, j: int) -> int
    decreases t.len() - j,
{
    if j >= t.len() || t[j] == '|' {
        j
    } else {
        pipe_at(t, j + 1)
    }
}

proof fn lemma_pipe_at(t: Seq<char>, j: int)
    requires
        0 <= j <= t.len(),
    ensures
        j <= pipe_at(t, j) <= t.len(),
    decreases t.len() - j,
{
    if j < t.len() && t[j] != '|' {
        lemma_pipe_at(t, j + 1);
    }
}

/// The cells of a table row from position `j` on: the pieces between `|`
/// separators that are not empty, each trimmed.
pub open spec fn cells_from(t: Seq<char>, j: int) -> Seq<Seq<char>>
    decreases t.len() - j,
    via cells_from_decreases
{
    if j < 0 || j > t.len() {
        Seq::empty()
    } else {
        let k = pipe_at(t, j);
        let piece = t.subrange(j, k);
        let head = if piece.len() > 0 {
            seq![trim(piece)]
        } else {
            Seq::empty()
        };
        if k >= t.len() {
            head
        } else {
            head + cells_from(t, k + 1)
        }
    }
}

#[via_fn]
proof fn cells_from_decreases(t: Seq<char>, j: int) {
    if 0 <= j <= t.len() {
        lemma_pipe_at(t, j);
    }
}

/// The view of a list of cells.
pub open spec fn cells_view(c: Seq<Vec<char>>) -> Seq<Seq<char>> {
    Seq::new(c.len(), |k: int| c[k]@)
}

/// The cells of a table row.
pub fn table_cells(t: &[char]) -> (r: Vec<Vec<char>>)
    ensures
        cells_view(r@) == cells_from(t@, 0),
{
    let n = t.len();
    let mut r: Vec<Vec<char>> = Vec::new();
    let mut j: usize = 0;
    loop
        invariant
            n == t@.len(),
            j <= n,
            cells_view(r@) + cells_from(t@, j as int) == cells_from(t@, 0),
        decreases n - j,
    {
        let ghost old_r = cells_view(r@);
        let mut k = j;
        while k < n && t[k] != '|'
            invariant
                j <= k <= n == t@.len(),
                pipe_at(t@, k as int) == pipe_at(t@, j as int),
            decreases n - k,
        {
            k = k + 1;
        }
        let ghost piece = t@.subrange(j as int, k as int);
        if k > j {
            let p = copy_chars(t, j, k);
            let c = trim_chars(p.as_slice());
            r.push(c);
            proof {
                assert(cells_view(r@) =~= old_r + seq![trim(piece)]);
            }
        } else {
            proof {
                assert(cells_view(r@) =~= old_r + Seq::<Seq<char>>::empty());
            }
        }
        if k >= n {
            proof {
                assert(cells_from(t@, j as int) == (if piece.len() > 0 {
                    seq![trim(piece)]
                } else {
                    Seq::<Seq<char>>::empty()
                }));
            }
            return r;
        }
        proof {
            let head = if piece.len() > 0 {
                seq![trim(piece)]
            } else {
                Seq::<Seq<char>>::empty()
            };
            assert(cells_from(t@, j as int) == head + cells_from(t@, k + 1));
            assert(cells_view(r@) == old_r + head);
            assert(old_r + head + cells_from(t@, k + 1) =~= old_r + (head + cells_from(t@, k + 1)));
        }
        j = k + 1;
    }
}

/// `t` holds three dashes in a row.
pub open spec fn has_dashes(t: Seq<char>) -> bool {
    exists|k: int| 0 <= k && k + 3 <= t.len() && #[trigger] t[k] == '-' && t[k + 1] == '-' && t[k + 2] == '-'
}

/// Whether `t` holds three dashes in a row.
pub fn contains_dashes(t: &[char]) -> (r: bool)
    ensures
        r == has_dashes(t@),
{
    let n = t.len();
    let mut k: usize = 0;
    while k < n && n - k >= 3
        invariant
            n == t@.len(),
            forall|j: int| 0 <= j < k && j + 3 <= n ==> !(#[trigger] t@[j] == '-' && t@[j + 1] == '-' && t@[j + 2] == '-'),
        decreases n - k,
    {
        if t[k] == '-' && t[k + 1] == '-' && t[k + 2] == '-' {
            return true;
        }
        k = k + 1;
    }
    proof {
        assert forall|j: int| 0 <= j && j + 3 <= t@.len() implies !(#[trigger] t@[j] == '-' && t@[j + 1] == '-'
            && t@[j + 2] == '-') by {
            assert(j < k || k >= n || n - k < 3);
        }
    }
    false
}

/// A block of the help text.
pub enum Block {
    /// Table rows, the first being the header.
    Table(Vec<Vec<Vec<char>>>),
    /// A fenced code block: its language hint and its lines joined by
    /// newlines.
    Code(Vec<char>, Vec<char>),
    /// A blank line.
    Space,
    /// A horizontal rule.
    Rule,
    /// A heading of level 1 to 4.
    Heading(u8, Vec<char>),
    /// A quoted note.
    Quote(Vec<char>),
    /// A bullet point.
    Bullet(Vec<char>),
    /// A paragraph line.
    Paragraph(Vec<char>),
}

/// What a block holds, as sequences.
pub enum BlockView {
    Table(Seq<Seq<Seq<char>>>),
    Code(Seq<char>, Seq<char>),
    Space,
    Rule,
    Heading(u8, Seq<char>),
    Quote(Seq<char>),
    Bullet(Seq<char>),
    Paragraph(Seq<char>),
}

/// The view of table rows.
pub open spec fn rows_view(rows: Seq<Vec<Vec<char>>>) -> Seq<Seq<Seq<char>>> {
    Seq::new(rows.len(), |i: int| cells_view(rows[i]@))
}

/// The view of a block.
pub open spec fn block_view(b: Block) -> BlockView {
    match b {
        Block::Table(rows) => BlockView::Table(rows_view(rows@)),
        Block::Code(lang, code) => BlockView::Code(lang@, code@),
        Block::Space => BlockView::Space,
        Block::Rule => BlockView::Rule,
        Block::Heading(level, text) => BlockView::Heading(level, text@),
        Block::Quote(text) => BlockView::Quote(text@),
        Block::Bullet(text) => BlockView::Bullet(text@),
        Block::Paragraph(text) => BlockView::Paragraph(text@),
    }
}

/// The view of a list of blocks.
pub open spec fn blocks_view(v: Seq<Block>) -> Seq<BlockView> {
    Seq::new(v.len(), |i: int| block_view(v[i]))
}

/// The view of a list of lines.
pub open spec fn lines_view(v: Seq<Vec<char>>) -> Seq<Seq<char>> {
    Seq::new(v.len(), |i: int| v[i]@)
}

/// What the parser carries from line to line: whether it is inside a code
/// block, the code so far and its language hint, and the pending table
/// rows.
pub struct ParseState {
    pub in_code: bool,
    pub code: Seq<char>,
    pub lang: Seq<char>,
    pub rows: Seq<Seq<Seq<char>>>,
}

/// The pending table, if any.
pub open spec fn flushed(rows: Seq<Seq<Seq<char>>>) -> Seq<BlockView> {
    if rows.len() > 0 {
        seq![BlockView::Table(rows)]
    } else {
        Seq::empty()
    }
}

/// `l` without its leading backquotes.
pub open spec fn strip_fence(l: Seq<char>) -> Seq<char>
    decreases l.len(),
{
    if l.len() > 0 && l[0] == '`' {
        strip_fence(l.subrange(1, l.len() as int))
    } else {
        l
    }
}

/// The block a line outside code and tables makes.
pub open spec fn line_block(t: Seq<char>) -> BlockView {
    if t.len() == 0 {
        BlockView::Space
    } else if t == seq!['-', '-', '-'] || t == seq!['*', '*', '*'] || t == seq!['_', '_', '_'] {
        BlockView::Rule
    } else if has_prefix(t, seq!['#', '#', '#', '#', ' ']) {
        BlockView::Heading(4, t.subrange(5, t.len() as int))
    } else if has_prefix(t, seq!['#', '#', '#', ' ']) {
        BlockView::Heading(3, t.subrange(4, t.len() as int))
    } else if has_prefix(t, seq!['#', '#', ' ']) {
        BlockView::Heading(2, t.subrange(3, t.len() as int))
    } else if has_prefix(t, seq!['#', ' ']) {
        BlockView::Heading(1, t.subrange(2, t.len() as int))
    } else if has_prefix(t, seq!['>', ' ']) {
        BlockView::Quote(t.subrange(2, t.len() as int))
    } else if has_prefix(t, seq!['-', ' ']) || has_prefix(t, seq!['*', ' ']) {
        BlockView::Bullet(t.subrange(2, t.len() as int))
    } else {
        BlockView::Paragraph(t)
    }
}

/// One line of the help text: a fence opens or closes a code block (and
/// ends a pending table); inside a code block the line is code; a line
/// starting with `|` is a table row (rows holding `---` are separators);
/// any other line ends a pending table and makes its own block.
pub open spec fn step(st: ParseState, line: Seq<char>) -> (ParseState, Seq<BlockView>) {
    let ts = trim_start(line);
    if has_prefix(ts, seq!['`', '`', '`']) {
        if st.in_code {
            (
                ParseState { in_code: false, code: Seq::empty(), lang: Seq::empty(), rows: Seq::empty() },
                flushed(st.rows) + seq![BlockView::Code(st.lang, st.code)],
            )
        } else {
            (
                ParseState { in_code: true, code: st.code, lang: trim(strip_fence(ts)), rows: Seq::empty() },
                flushed(st.rows),
            )
        }
    } else if st.in_code {
        let code = if st.code.len() == 0 {
            line
        } else {
            st.code + seq!['\n'] + line
        };
        (ParseState { code, ..st }, Seq::empty())
    } else {
        let t = trim(line);
        if has_prefix(t, seq!['|']) {
            if has_dashes(t) || cells_from(t, 0).len() == 0 {
                (st, Seq::empty())
            } else {
                (ParseState { rows: st.rows.push(cells_from(t, 0)), ..st }, Seq::empty())
            }
        } else {
            (ParseState { rows: Seq::empty(), ..st }, flushed(st.rows) + seq![line_block(t)])
        }
    }
}

/// The parser's state and the blocks made after the first `n` lines.
pub open spec fn run(lines: Seq<Seq<char>>, n: nat) -> (ParseState, Seq<BlockView>)
    decreases n,
{
    if n == 0 || n > lines.len() {
        (ParseState { in_code: false, code: Seq::empty(), lang: Seq::empty(), rows: Seq::empty() }, Seq::empty())
    } else {
        let (st, out) = run(lines, (n - 1) as nat);
        let (st2, more) = step(st, lines[n - 1]);
        (st2, out + more)
    }
}

/// The blocks of the help text: those of every line, then a pending table
/// (a code block left open is dropped).
pub open spec fn help_blocks(lines: Seq<Seq<char>>) -> Seq<BlockView> {
    let (st, out) = run(lines, lines.len());
    out + flushed(st.rows)
}

/// Removes the leading backquotes of a fence line.
fn strip_fence_chars(l: &[char]) -> (r: Vec<char>)
    ensures
        r@ == strip_fence(l@),
{
    let n = l.len();
    let mut k: usize = 0;
    assert(l@.subrange(0, n as int) =~= l@);
    while k < n && l[k] == '`'
        invariant
            k <= n == l@.len(),
            strip_fence(l@.subrange(k as int, n as int)) == strip_fence(l@),
        decreases n - k,
    {
        proof {
            let sub = l@.subrange(k as int, n as int);
            assert(sub.subrange(1, sub.len() as int) =~= l@.subrange(k + 1, n as int));
        }
        k = k + 1;
    }
    copy_chars(l, k, n)
}

/// The block of a line outside code and tables.
fn make_line_block(t: Vec<char>) -> (b: Block)
    ensures
        block_view(b) == line_block(t@),
{
    let n = t.len();
    if n == 0 {
        return Block::Space;
    }
    let dashes: [char; 3] = ['-', '-', '-'];
    let stars: [char; 3] = ['*', '*', '*'];
    let unders: [char; 3] = ['_', '_', '_'];
    let h4: [char; 5] = ['#', '#', '#', '#', ' '];
    let h3: [char; 4] = ['#', '#', '#', ' '];
    let h2: [char; 3] = ['#', '#', ' '];
    let h1: [char; 2] = ['#', ' '];
    let quote: [char; 2] = ['>', ' '];
    let dash_item: [char; 2] = ['-', ' '];
    let star_item: [char; 2] = ['*', ' '];
    assert(dashes@ =~= seq!['-', '-', '-']);
    assert(stars@ =~= seq!['*', '*', '*']);
    assert(unders@ =~= seq!['_', '_', '_']);
    assert(h4@ =~= seq!['#', '#', '#', '#', ' ']);
    assert(h3@ =~= seq!['#', '#', '#', ' ']);
    assert(h2@ =~= seq!['#', '#', ' ']);
    assert(h1@ =~= seq!['#', ' ']);
    assert(quote@ =~= seq!['>', ' ']);
    assert(dash_item@ =~= seq!['-', ' ']);
    assert(star_item@ =~= seq!['*', ' ']);
    let is_rule = n == 3 && (starts_with_chars(t.as_slice(), dashes.as_slice()) || starts_with_chars(
        t.as_slice(),
        stars.as_slice(),
    ) || starts_with_chars(t.as_slice(), unders.as_slice()));
    proof {
        if n == 3 {
            assert(t@.subrange(0, 3) =~= t@);
        } else {
            assert(t@ != seq!['-', '-', '-'] && t@ != seq!['*', '*', '*'] && t@ != seq!['_', '_', '_']) by {
                if t@ == seq!['-', '-', '-'] || t@ == seq!['*', '*', '*'] || t@ == seq!['_', '_', '_'] {
                    assert(t@.len() == 3);
                }
            }
        }
    }
    if is_rule {
        Block::Rule
    } else if starts_with_chars(t.as_slice(), h4.as_slice()) {
        Block::Heading(4, copy_chars(t.as_slice(), 5, n))
    } else if starts_with_chars(t.as_slice(), h3.as_slice()) {
        Block::Heading(3, copy_chars(t.as_slice(), 4, n))
    } else if starts_with_chars(t.as_slice(), h2.as_slice()) {
        Block::Heading(2, copy_chars(t.as_slice(), 3, n))
    } else if starts_with_chars(t.as_slice(), h1.as_slice()) {
        Block::Heading(1, copy_chars(t.as_slice(), 2, n))
    } else if starts_with_chars(t.as_slice(), quote.as_slice()) {
        Block::Quote(copy_chars(t.as_slice(), 2, n))
    } else if starts_with_chars(t.as_slice(), dash_item.as_slice()) || starts_with_chars(
        t.as_slice(),
        star_item.as_slice(),
    ) {
        Block::Bullet(copy_chars(t.as_slice(), 2, n))
    } else {
        Block::Paragraph(t)
    }
}

/// Appends `line` to the code of an open code block, after a newline when
/// the block already holds code.
fn append_code_line(code: &mut Vec<char>, line: &[char])
    ensures
        final(code)@ == (if old(code)@.len() == 0 {
            line@
        } else {
            old(code)@ + seq!['\n'] + line@
        }),
{
    if code.len() > 0 {
        code.push('\n');
    }
    let ghost base = code@;
    let mut k: usize = 0;
    while k < line.len()
        invariant
            k <= line@.len(),
            code@ == base + line@.take(k as int),
        decreases line@.len() - k,
    {
        code.push(line[k]);
        proof {
            assert(code@ =~= base + line@.take(k + 1));
        }
        k = k + 1;
    }
    proof {
        assert(line@.take(line@.len() as int) =~= line@);
        assert(seq!['\n'] + line@ =~= seq!['\n'] + line@);
        if old(code)@.len() == 0 {
            assert(base =~= Seq::<char>::empty());
            assert(code@ =~= line@);
        } else {
            assert(code@ =~= old(code)@ + seq!['\n'] + line@);
        }
    }
}

/// The parser's state as sequences.
pub open spec fn state_view(in_code: bool, code: Seq<char>, lang: Seq<char>, rows: Seq<Vec<Vec<char>>>) -> ParseState {
    ParseState { in_code, code, lang, rows: rows_view(rows) }
}

/// Splits the help text, given as lines, into blocks.
pub fn parse_help(lines: &Vec<Vec<char>>) -> (r: Vec<Block>)
    ensures
        blocks_view(r@) == help_blocks(lines_view(lines@)),
{
    let fence: [char; 3] = ['`', '`', '`'];
    let pipe: [char; 1] = ['|'];
    assert(fence@ =~= seq!['`', '`', '`']);
    assert(pipe@ =~= seq!['|']);
    let mut out: Vec<Block> = Vec::new();
    let mut in_code = false;
    let mut code: Vec<char> = Vec::new();
    let mut lang: Vec<char> = Vec::new();
    let mut rows: Vec<Vec<Vec<char>>> = Vec::new();
    let mut i: usize = 0;
    proof {
        assert(rows_view(rows@) =~= Seq::<Seq<Seq<char>>>::empty());
        assert(blocks_view(out@) =~= Seq::<BlockView>::empty());
        assert(code@ =~= Seq::<char>::empty());
        assert(lang@ =~= Seq::<char>::empty());
    }
    while i < lines.len()
        invariant
            i <= lines@.len(),
            fence@ == seq!['`', '`', '`'],
            pipe@ == seq!['|'],
            run(lines_view(lines@), i as nat) == (state_view(in_code, code@, lang@, rows@), blocks_view(out@)),
        decreases lines@.len() - i,
    {
        let ghost st = state_view(in_code, code@, lang@, rows@);
        let ghost out0 = blocks_view(out@);
        let line: &Vec<char> = &lines[i];
        let ghost l = line@;
        assert(lines_view(lines@)[i as int] == l);
        let ts = trim_start_chars(line.as_slice());
        if starts_with_chars(ts.as_slice(), fence.as_slice()) {
            if rows.len() > 0 {
                let ghost rv = rows_view(rows@);
                out.push(Block::Table(rows));
                rows = Vec::new();
                proof {
                    assert(blocks_view(out@) =~= out0 + seq![BlockView::Table(rv)]);
                }
            }
            proof {
                assert(blocks_view(out@) =~= out0 + flushed(st.rows));
                assert(rows_view(rows@) =~= Seq::<Seq<Seq<char>>>::empty());
            }
            if in_code {
                let ghost out1 = blocks_view(out@);
                out.push(Block::Code(lang, code));
                lang = Vec::new();
                code = Vec::new();
                in_code = false;
                proof {
                    assert(blocks_view(out@) =~= out1 + seq![BlockView::Code(st.lang, st.code)]);
                    assert(code@ =~= Seq::<char>::empty());
                    assert(lang@ =~= Seq::<char>::empty());
                    assert(out0 + (flushed(st.rows) + seq![BlockView::Code(st.lang, st.code)]) =~= blocks_view(out@));
                }
            } else {
                let stripped = strip_fence_chars(ts.as_slice());
                lang = trim_chars(stripped.as_slice());
                in_code = true;
            }
            proof {
                assert(step(st, l).0 == state_view(in_code, code@, lang@, rows@));
                assert(out0 + step(st, l).1 =~= blocks_view(out@));
            }
        } else if in_code {
            append_code_line(&mut code, line.as_slice());
            proof {
                assert(step(st, l).0 == state_view(in_code, code@, lang@, rows@));
                assert(out0 + step(st, l).1 =~= blocks_view(out@));
            }
        } else {
            let t = trim_chars(line.as_slice());
            if starts_with_chars(t.as_slice(), pipe.as_slice()) {
                if !contains_dashes(t.as_slice()) {
                    let cells = table_cells(t.as_slice());
                    if cells.len() > 0 {
                        let ghost rv = rows_view(rows@);
                        rows.push(cells);
                        proof {
                            assert(rows_view(rows@) =~= rv.push(cells_from(t@, 0)));
                        }
                    }
                }
                proof {
                    assert(step(st, l).0 == state_view(in_code, code@, lang@, rows@));
                    assert(out0 + step(st, l).1 =~= blocks_view(out@));
                }
            } else {
                if rows.len() > 0 {
                    let ghost rv = rows_view(rows@);
                    out.push(Block::Table(rows));
                    rows = Vec::new();
                    proof {
                        assert(blocks_view(out@) =~= out0 + seq![BlockView::Table(rv)]);
                    }
                }
                proof {
                    assert(blocks_view(out@) =~= out0 + flushed(st.rows));
                    assert(rows_view(rows@) =~= Seq::<Seq<Seq<char>>>::empty());
                }
                let ghost out1 = blocks_view(out@);
                let ghost tv = t@;
                out.push(make_line_block(t));
                proof {
                    assert(blocks_view(out@) =~= out1 + seq![line_block(tv)]);
                    assert(step(st, l).0 == state_view(in_code, code@, lang@, rows@));
                    assert(out0 + step(st, l).1 =~= blocks_view(out@));
                }
            }
        }
        i = i + 1;
    }
    let ghost out0 = blocks_view(out@);
    let ghost rv = rows_view(rows@);
    if rows.len() > 0 {
        out.push(Block::Table(rows));
        proof {
            assert(blocks_view(out@) =~= out0 + seq![BlockView::Table(rv)]);
        }
    }
    proof {
        assert(lines_view(lines@).len() == lines@.len());
        assert(blocks_view(out@) =~= out0 + flushed(rv));
    }
    out
}

} // verus!
