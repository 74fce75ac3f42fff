//! The text renderer: one block per header (name line, indented value line,
//! blank separator), a status line styled by success or failure, and an
//! optional body. Styling goes through `owo_colors`; whether to style at all
//! is the `colorize` flag, resolved once and threaded through explicitly.

use vstd::prelude::*;
use crate::headers::{SpecEntry, SpecRawHeader};
use crate::strutil::{spec_digits, u16_to_string};

verus! {

/// Classification of an HTTP status code: the 2xx range counts as success.
/// It selects a display style only, never control flow.
pub open spec fn spec_is_success(code: u16) -> bool {
    200 <= code < 300
}

/// Decides whether a status code counts as success, for choosing a style.
pub fn is_success(code: u16) -> (r: bool)
    ensures
        r == spec_is_success(code),
{
    200 <= code && code < 300
}

/// Text wrapped in the heading style's ANSI codes.
pub uninterp spec fn styled_heading(s: Seq<char>) -> Seq<char>;

/// Text wrapped in the success style's ANSI codes.
pub uninterp spec fn styled_success(s: Seq<char>) -> Seq<char>;

/// Text wrapped in the failure style's ANSI codes.
pub uninterp spec fn styled_failure(s: Seq<char>) -> Seq<char>;

/// Text wrapped in the body style's ANSI codes.
pub uninterp spec fn styled_body(s: Seq<char>) -> Seq<char>;

/// Relies on `owo_colors::Style::style` and its `Display` form: for this
/// non-plain style (black on bright yellow, bold) the output is an ANSI
/// prefix starting with the escape character, the text, and the reset suffix.
#[verifier::external_body]
fn paint_heading(s: &str) -> (r: String)
    ensures
        r@ == styled_heading(s@),
        r@.len() > 0,
        r@[0] == '\u{1b}',
{
    let style = owo_colors::Style::new().black().on_bright_yellow().bold();
    format!("{}", style.style(s))
}

/// Relies on `owo_colors::Style::style` and its `Display` form, as above,
/// with the success style (black on bright green, bold).
#[verifier::external_body]
fn paint_success(s: &str) -> (r: String)
    ensures
        r@ == styled_success(s@),
        r@.len() > 0,
        r@[0] == '\u{1b}',
{
    let style = owo_colors::Style::new().black().on_bright_green().bold();
    format!("{}", style.style(s))
}

/// Relies on `owo_colors::Style::style` and its `Display` form, as above,
/// with the failure style (black on bright red, bold).
#[verifier::external_body]
fn paint_failure(s: &str) -> (r: String)
    ensures
        r@ == styled_failure(s@),
        r@.len() > 0,
        r@[0] == '\u{1b}',
{
    let style = owo_colors::Style::new().black().on_bright_red().bold();
    format!("{}", style.style(s))
}

/// Relies on `owo_colors::Style::style` and its `Display` form, as above,
/// with the body style (black on bright blue, bold).
#[verifier::external_body]
fn paint_body(s: &str) -> (r: String)
    ensures
        r@ == styled_body(s@),
        r@.len() > 0,
        r@[0] == '\u{1b}',
{
    let style = owo_colors::Style::new().black().on_bright_blue().bold();
    format!("{}", style.style(s))
}

/// The four visual styles of the text renderer.
#[derive(Debug, Clone, Copy, PartialEq, Eq, Structural)]
pub enum StyleKind {
    Heading,
    Success,
    Failure,
    Body,
}

/// Text wrapped in the ANSI codes of the given style.
pub open spec fn spec_painted(kind: StyleKind, s: Seq<char>) -> Seq<char> {
    match kind {
        StyleKind::Heading => styled_heading(s),
        StyleKind::Success => styled_success(s),
        StyleKind::Failure => styled_failure(s),
        StyleKind::Body => styled_body(s),
    }
}

/// Styles text with the given style; every style announces itself with the
/// escape character.
pub fn paint(kind: StyleKind, s: &str) -> (r: String)
    ensures
        r@ == spec_painted(kind, s@),
        r@.len() > 0,
        r@[0] == '\u{1b}',
{
    match kind {
        StyleKind::Heading => paint_heading(s),
        StyleKind::Success => paint_success(s),
        StyleKind::Failure => paint_failure(s),
        StyleKind::Body => paint_body(s),
    }
}

/// The renderer's style assignment: which style each part of the output uses.
pub struct Styles {
    /// Style of a header-name line.
    pub heading: StyleKind,
    /// Style of the status label on success.
    pub status: StyleKind,
    /// Style of the status label on failure.
    pub status_bad: StyleKind,
    /// Style of the response body.
    pub body: StyleKind,
}

impl Styles {
    /// The fixed assignment the tool renders with.
    pub fn new() -> (s: Styles)
        ensures
            s.heading == StyleKind::Heading,
            s.status == StyleKind::Success,
            s.status_bad == StyleKind::Failure,
            s.body == StyleKind::Body,
    {
        Styles {
            heading: StyleKind::Heading,
            status: StyleKind::Success,
            status_bad: StyleKind::Failure,
            body: StyleKind::Body,
        }
    }
}

/// One rendered header block: the name (styled when colorizing), a colon, the
/// value on an indented line, and a blank separator line.
pub open spec fn render_block(e: SpecEntry, colorize: bool) -> Seq<char> {
    (if colorize {
        styled_heading(e.name)
    } else {
        e.name
    }) + ":\n  "@ + e.value + "\n\n"@
}

/// All header blocks, in display order.
pub open spec fn render_blocks(v: Seq<SpecEntry>, colorize: bool) -> Seq<char>
    decreases v.len(),
{
    if v.len() == 0 {
        Seq::empty()
    } else {
        render_block(v[0], colorize) + render_blocks(v.drop_first(), colorize)
    }
}

/// The status line: the label (styled by success or failure when colorizing),
/// then the numeric code.
pub open spec fn render_status_spec(code: u16, colorize: bool) -> Seq<char> {
    (if colorize {
        if spec_is_success(code) {
            styled_success("Status Code"@)
        } else {
            styled_failure("Status Code"@)
        }
    } else {
        "Status Code"@
    }) + ": "@ + spec_digits(code as nat) + "\n"@
}

/// The optional body, styled when colorizing, on its own trailing lines.
pub open spec fn render_body_spec(body: Option<Seq<char>>, colorize: bool) -> Seq<char> {
    match body {
        Option::None => Seq::empty(),
        Option::Some(b) => (if colorize {
            styled_body(b)
        } else {
            b
        }) + "\n"@,
    }
}

/// The whole text rendering: header blocks, status line, optional body.
pub open spec fn render_text_spec(
    v: Seq<SpecEntry>,
    colorize: bool,
    code: u16,
    body: Option<Seq<char>>,
) -> Seq<char> {
    render_blocks(v, colorize) + render_status_spec(code, colorize) + render_body_spec(
        body,
        colorize,
    )
}

/// Appends the status line.
pub fn render_status(out: &mut String, code: u16, colorize: bool)
    ensures
        final(out)@ == old(out)@ + render_status_spec(code, colorize),
        colorize ==> final(out)@.len() > old(out)@.len() && final(out)@[old(out)@.len() as int]
            == '\u{1b}',
{
    let styles = Styles::new();
    if colorize {
        let kind = if is_success(code) {
            styles.status
        } else {
            styles.status_bad
        };
        let label = paint(kind, "Status Code");
        out.append(label.as_str());
    } else {
        out.append("Status Code");
    }
    out.append(": ");
    let digits = u16_to_string(code);
    out.append(digits.as_str());
    out.append("\n");
    proof {
        assert(out@ =~= old(out)@ + render_status_spec(code, colorize));
        if colorize {
            assert(render_status_spec(code, colorize)[0] == '\u{1b}');
            assert(out@[old(out)@.len() as int] == '\u{1b}');
        }
    }
}

/// Renders the ordered headers, the status line and the optional body as
/// styled text.
pub fn render_text(
    entries: &Vec<crate::headers::HeaderEntry>,
    colorize: bool,
    code: u16,
    body: Option<&String>,
) -> (r: String)
    ensures
        r@ == render_text_spec(entries.deep_view(), colorize, code, body_view(body)),
        colorize ==> r@.contains('\u{1b}'),
{
    let ghost v = entries.deep_view();
    let styles = Styles::new();
    let mut out = String::new();
    let mut i: usize = 0;
    proof {
        lemma_render_blocks_from_step(v, 0, colorize);
        assert(v.skip(0) =~= v);
        assert(out@ + render_blocks_from(v, 0, colorize) =~= render_blocks(v, colorize));
    }
    while i < entries.len()
        invariant
            i <= entries@.len(),
            v == entries.deep_view(),
            v.len() == entries@.len(),
            styles.heading == StyleKind::Heading,
            out@ + render_blocks_from(v, i as int, colorize) =~= render_blocks(v, colorize),
        decreases entries@.len() - i,
    {
        let ghost pre = out@;
        let e = &entries[i];
        assert(v[i as int] == e@);
        if colorize {
            let painted = paint(styles.heading, e.name.as_str());
            out.append(painted.as_str());
        } else {
            out.append(e.name.as_str());
        }
        out.append(":\n  ");
        out.append(e.value.as_str());
        out.append("\n\n");
        proof {
            assert(out@ =~= pre + render_block(v[i as int], colorize));
            assert(render_blocks_from(v, i as int, colorize) == render_block(v[i as int], colorize)
                + render_blocks_from(v, i as int + 1, colorize));
            assert(out@ + render_blocks_from(v, i as int + 1, colorize) =~= render_blocks(
                v,
                colorize,
            ));
        }
        i = i + 1;
    }
    proof {
        assert(render_blocks_from(v, v.len() as int, colorize) =~= Seq::<char>::empty());
        assert(out@ =~= render_blocks(v, colorize));
    }
    let ghost esc_at = out@.len() as int;
    render_status(&mut out, code, colorize);
    proof {
        if colorize {
            assert(out@[esc_at] == '\u{1b}');
        }
    }
    match body {
        Option::None => {},
        Option::Some(b) => {
            if colorize {
                let painted = paint(styles.body, b.as_str());
                out.append(painted.as_str());
            } else {
                out.append(b.as_str());
            }
            out.append("\n");
        },
    }
    proof {
        assert(out@ =~= render_text_spec(v, colorize, code, body_view(body)));
        if colorize {
            assert(out@[esc_at] == '\u{1b}');
            assert(out@.contains('\u{1b}'));
        }
    }
    out
}

/// Free of the ANSI escape character: no color code can be hiding in it.
pub open spec fn esc_free(s: Seq<char>) -> bool {
    forall|i: int| 0 <= i < s.len() ==> s[i] != '\u{1b}'
}

/// Escape-freeness is preserved by concatenation.
pub proof fn lemma_esc_free_app(a: Seq<char>, b: Seq<char>)
    requires
        esc_free(a),
        esc_free(b),
    ensures
        esc_free(a + b),
{
    assert forall|i: int| 0 <= i < (a + b).len() implies (a + b)[i] != '\u{1b}' by {
        if i < a.len() {
            assert((a + b)[i] == a[i]);
        } else {
            assert((a + b)[i] == b[i - a.len()]);
        }
    }
}

/// The renderer's own punctuation holds no escape character.
proof fn lemma_literals_esc_free()
    ensures
        esc_free("Status Code"@),
        esc_free(": "@),
        esc_free("\n"@),
        esc_free(":\n  "@),
        esc_free("\n\n"@),
{
    reveal_strlit("Status Code");
    reveal_strlit(": ");
    reveal_strlit("\n");
    reveal_strlit(":\n  ");
    reveal_strlit("\n\n");
}

/// Decimal digits hold no escape character.
proof fn lemma_digits_esc_free(n: nat)
    ensures
        esc_free(spec_digits(n)),
    decreases n,
{
    let d: nat = if n < 10 {
        n
    } else {
        n % 10
    };
    let c = ((48 + d) as u8) as char;
    assert(c as u32 == 48 + d);
    assert('\u{1b}' as u32 == 27);
    assert(c != '\u{1b}');
    if n < 10 {
        assert(spec_digits(n) =~= seq![c]);
    } else {
        lemma_digits_esc_free(n / 10);
        assert(spec_digits(n) =~= spec_digits(n / 10) + seq![c]);
        lemma_esc_free_app(spec_digits(n / 10), seq![c]);
    }
}

/// With colorizing off, a rendered block holds no escape character, as long
/// as the entry itself holds none.
proof fn lemma_block_esc_free(e: SpecEntry)
    requires
        esc_free(e.name),
        esc_free(e.value),
    ensures
        esc_free(render_block(e, false)),
{
    lemma_literals_esc_free();
    lemma_esc_free_app(e.name, ":\n  "@);
    lemma_esc_free_app(e.name + ":\n  "@, e.value);
    lemma_esc_free_app(e.name + ":\n  "@ + e.value, "\n\n"@);
}

/// With colorizing off, the rendered blocks hold no escape character.
proof fn lemma_blocks_esc_free(v: Seq<SpecEntry>)
    requires
        forall|i: int|
            0 <= i < v.len() ==> esc_free((#[trigger] v[i]).name) && esc_free(v[i].value),
    ensures
        esc_free(render_blocks(v, false)),
    decreases v.len(),
{
    if v.len() == 0 {
    } else {
        lemma_block_esc_free(v[0]);
        lemma_blocks_esc_free(v.drop_first());
        lemma_esc_free_app(render_block(v[0], false), render_blocks(v.drop_first(), false));
    }
}

/// With colorizing off the renderer never emits a color escape sequence: its
/// whole output is free of the escape character whenever the header names,
/// values and body are. (`Color::Never` resolves to colorizing off, as does
/// `Color::Auto` on a stream without color support.)
pub proof fn lemma_no_color_no_escapes(
    v: Seq<SpecEntry>,
    code: u16,
    body: Option<Seq<char>>,
)
    requires
        forall|i: int|
            0 <= i < v.len() ==> esc_free((#[trigger] v[i]).name) && esc_free(v[i].value),
        body matches Option::Some(b) ==> esc_free(b),
    ensures
        esc_free(render_text_spec(v, false, code, body)),
{
    lemma_literals_esc_free();
    lemma_digits_esc_free(code as nat);
    lemma_blocks_esc_free(v);
    lemma_esc_free_app("Status Code"@, ": "@);
    lemma_esc_free_app("Status Code"@ + ": "@, spec_digits(code as nat));
    lemma_esc_free_app("Status Code"@ + ": "@ + spec_digits(code as nat), "\n"@);
    assert(esc_free(render_status_spec(code, false)));
    lemma_esc_free_app(render_blocks(v, false), render_status_spec(code, false));
    match body {
        Option::None => {
            assert(render_body_spec(body, false) =~= Seq::<char>::empty());
        },
        Option::Some(b) => {
            lemma_esc_free_app(b, "\n"@);
        },
    }
    lemma_esc_free_app(
        render_blocks(v, false) + render_status_spec(code, false),
        render_body_spec(body, false),
    );
}

/// When collection succeeds, every collected value is displayable text, so no
/// escape character can be hiding in it: the renderer cannot be tricked into
/// color output through a header value.
pub proof fn lemma_collector_values_esc_free(h: Seq<SpecRawHeader>, pats: Seq<Seq<char>>)
    requires
        crate::headers::collect_ok(h, pats),
    ensures
        forall|m: int|
            0 <= m < crate::headers::collect_entries(h, pats).len() ==> esc_free(
                (#[trigger] crate::headers::collect_entries(h, pats)[m]).value,
            ),
{
    let srt = crate::headers::collect_pairs(h, pats);
    let kept = crate::headers::kept_headers(h, pats);
    assert forall|m: int|
        0 <= m < crate::headers::collect_entries(h, pats).len() implies esc_free(
        (#[trigger] crate::headers::collect_entries(h, pats)[m]).value,
    ) by {
        let pair = srt[m];
        assert(crate::headers::collect_entries(h, pats)[m] == pair.0);
        assert(srt.contains(pair));
        crate::headers::lemma_collector_exact(h, pats, pair.0, pair.1);
        let i = pair.1;
        assert(pair.0 == crate::headers::decode_entry(h[i]));
        crate::headers::lemma_kept_from_exact(h, pats, 0, h[i], i);
        assert(kept.contains((h[i], i)));
        let k = choose|k: int| 0 <= k < kept.len() && kept[k] == (h[i], i);
        assert(crate::headers::displayable(kept[k].0.value));
        let value = pair.0.value;
        assert forall|j: int| 0 <= j < value.len() implies value[j] != '\u{1b}' by {
            let b = h[i].value[j];
            assert(crate::headers::displayable_byte(b));
            assert(value[j] == b as char);
            assert((b as char) as u32 == b);
            assert('\u{1b}' as u32 == 27);
        }
    }
}

/// `Color::Auto` on a stream without color support resolves to colorizing
/// off, so such a run never emits a color escape sequence either.
pub proof fn lemma_auto_without_capability_no_escapes(
    v: Seq<SpecEntry>,
    code: u16,
    body: Option<Seq<char>>,
)
    requires
        forall|i: int|
            0 <= i < v.len() ==> esc_free((#[trigger] v[i]).name) && esc_free(v[i].value),
        body matches Option::Some(b) ==> esc_free(b),
    ensures
        !crate::config::spec_colorize(crate::config::Color::Auto, false),
        esc_free(
            render_text_spec(
                v,
                crate::config::spec_colorize(crate::config::Color::Auto, false),
                code,
                body,
            ),
        ),
{
    lemma_no_color_no_escapes(v, code, body);
}

/// The blocks from entry `lo` on.
pub open spec fn render_blocks_from(v: Seq<SpecEntry>, lo: int, colorize: bool) -> Seq<char>
    decreases v.len() - lo,
{
    if lo < 0 || lo >= v.len() {
        Seq::empty()
    } else {
        render_block(v[lo], colorize) + render_blocks_from(v, lo + 1, colorize)
    }
}

/// What the body argument reads as.
pub open spec fn body_view(body: Option<&String>) -> Option<Seq<char>> {
    match body {
        Option::None => Option::None,
        Option::Some(b) => Option::Some(b@),
    }
}

impl crate::headers::Parsed {
    /// Renders the parsed headers: as one JSON object when `json` is set
    /// (color and body do not apply there), otherwise as styled text with the
    /// status line and, if given, the body. Writing the returned text to the
    /// output stream, in one buffered write, is the caller's part.
    pub fn display(&self, json: bool, status_code: u16, colorize: bool, body: Option<&String>) -> (out: String)
        ensures
            json ==> out@ == crate::json::render_json_spec(self@),
            json ==> esc_free(out@),
            !json ==> out@ == render_text_spec(self@, colorize, status_code, body_view(body)),
            !json && colorize ==> out@.contains('\u{1b}'),
    {
        if json {
            proof {
                crate::json::lemma_json_never_escapes(self@);
            }
            crate::json::render_json(&self.headers.entries)
        } else {
            render_text(&self.headers.entries, colorize, status_code, body)
        }
    }
}

/// Rendering block by block from the front agrees with the recursive
/// definition of the rendered blocks.
proof fn lemma_render_blocks_from_step(v: Seq<SpecEntry>, lo: int, colorize: bool)
    requires
        0 <= lo <= v.len(),
    ensures
        render_blocks_from(v, lo, colorize) =~= render_blocks(v.skip(lo), colorize),
    decreases v.len() - lo,
{
    if lo < v.len() {
        lemma_render_blocks_from_step(v, lo + 1, colorize);
        assert(v.skip(lo).drop_first() =~= v.skip(lo + 1));
        assert(v.skip(lo)[0] == v[lo]);
    } else {
        assert(v.skip(lo) =~= Seq::<SpecEntry>::empty());
    }
}

} // verus!
