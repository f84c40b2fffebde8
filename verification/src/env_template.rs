//! The `.env` template engine: parsing, resolving and templatizing.
//!
//! A template is a sequence of lines. Each line is blank or a comment
//! (kept verbatim), or an assignment `KEY=VALUE` where only the first
//! `=` delimits. A value beginning with a reference prefix names a
//! secret: `en://name` in the local store, `en://global/name` in the
//! global one; the legacy `ev://` forms are accepted as synonyms.
//! Resolution turns parsed lines into a flat environment map against the
//! decrypted stores, all or nothing. Templatizing prints parsed lines
//! back, turning every literal assignment into a local reference named
//! after its own key.

use vstd::prelude::*;
use vstd::string::{StrSliceExecFns, StringExecFns};
use crate::error::EnjectError;
use crate::string_map::StringMap;

verus! {

/// The whitespace trimmed from line ends and around keys.
pub open spec fn is_space(c: char) -> bool {
    c == ' ' || c == '\t' || c == '\r'
}

/// The least index of `c` in `s`, or a negative value when `s` does not
/// hold it.
pub open spec fn find_char(s: Seq<char>, c: char) -> int
    decreases s.len(),
{
    if s.len() == 0 {
        -1
    } else if s[0] == c {
        0
    } else if find_char(s.skip(1), c) < 0 {
        -1
    } else {
        find_char(s.skip(1), c) + 1
    }
}

/// What `find_char` returns: the least position of `c`, if any.
pub proof fn lemma_find_char(s: Seq<char>, c: char)
    ensures
        find_char(s, c) >= 0 ==> 0 <= find_char(s, c) < s.len() && s[find_char(s, c)] == c
            && forall|j: int| 0 <= j < find_char(s, c) ==> s[j] != c,
        find_char(s, c) < 0 ==> forall|j: int| 0 <= j < s.len() ==> s[j] != c,
    decreases s.len(),
{
    if s.len() > 0 && s[0] != c {
        lemma_find_char(s.skip(1), c);
        let r = find_char(s.skip(1), c);
        if r >= 0 {
            assert forall|j: int| 0 <= j < r + 1 implies s[j] != c by {
                if j > 0 {
                    assert(s[j] == s.skip(1)[j - 1]);
                }
            }
        } else {
            assert forall|j: int| 0 <= j < s.len() implies s[j] != c by {
                if j > 0 {
                    assert(s[j] == s.skip(1)[j - 1]);
                }
            }
        }
    }
}

/// `find_char` is pinned by exhibiting the least occurrence.
pub proof fn lemma_find_char_is(s: Seq<char>, c: char, i: int)
    requires
        0 <= i < s.len(),
        s[i] == c,
        forall|j: int| 0 <= j < i ==> s[j] != c,
    ensures
        find_char(s, c) == i,
{
    lemma_find_char(s, c);
    let r = find_char(s, c);
    if r < 0 {
        assert(s[i] != c);
    } else if r < i {
        assert(s[r] != c);
    } else if r > i {
        assert(s[i] != c);
    }
}

/// `find_char` is negative when `c` does not occur.
pub proof fn lemma_find_char_absent(s: Seq<char>, c: char)
    requires
        forall|j: int| 0 <= j < s.len() ==> s[j] != c,
    ensures
        find_char(s, c) < 0,
{
    lemma_find_char(s, c);
    if find_char(s, c) >= 0 {
        assert(s[find_char(s, c)] == c);
    }
}

/// The line without its trailing whitespace.
pub open spec fn trim_end_spec(s: Seq<char>) -> Seq<char>
    decreases s.len(),
{
    if s.len() > 0 && is_space(s.last()) {
        trim_end_spec(s.drop_last())
    } else {
        s
    }
}

/// The line without its leading whitespace.
pub open spec fn trim_start_spec(s: Seq<char>) -> Seq<char>
    decreases s.len(),
{
    if s.len() > 0 && is_space(s[0]) {
        trim_start_spec(s.skip(1))
    } else {
        s
    }
}

/// Whitespace removed from both ends.
pub open spec fn trim_spec(s: Seq<char>) -> Seq<char> {
    trim_start_spec(trim_end_spec(s))
}

/// Trimming the end cuts exactly at the last non-space character.
pub proof fn lemma_trim_end_at(s: Seq<char>, e: int)
    requires
        0 <= e <= s.len(),
        forall|j: int| e <= j < s.len() ==> is_space(#[trigger] s[j]),
        e > 0 ==> !is_space(s[e - 1]),
    ensures
        trim_end_spec(s) == s.take(e),
    decreases s.len(),
{
    if s.len() == e {
        assert(s.take(e) =~= s);
    } else {
        assert(is_space(s.last()));
        lemma_trim_end_at(s.drop_last(), e);
        assert(s.drop_last().take(e) =~= s.take(e));
    }
}

/// Trimming the start cuts exactly at the first non-space character.
pub proof fn lemma_trim_start_at(s: Seq<char>, b: int)
    requires
        0 <= b <= s.len(),
        forall|j: int| 0 <= j < b ==> is_space(#[trigger] s[j]),
        b < s.len() ==> !is_space(s[b]),
    ensures
        trim_start_spec(s) == s.skip(b),
    decreases b,
{
    if b == 0 {
        assert(s.skip(0) =~= s);
    } else {
        assert(is_space(s[0]));
        assert forall|j: int| 0 <= j < b - 1 implies is_space(#[trigger] s.skip(1)[j]) by {
            assert(s.skip(1)[j] == s[j + 1]);
        }
        lemma_trim_start_at(s.skip(1), b - 1);
        assert(s.skip(1).skip(b - 1) =~= s.skip(b));
    }
}

/// `s` begins with `p`.
pub open spec fn starts_with(s: Seq<char>, p: Seq<char>) -> bool {
    s.len() >= p.len() && s.take(p.len() as int) == p
}

/// A parsed line, as specifications see it.
pub enum EnvLineView {
    Passthrough(Seq<char>),
    Plain { key: Seq<char>, value: Seq<char> },
    LocalRef { key: Seq<char>, secret_name: Seq<char> },
    GlobalRef { key: Seq<char>, secret_name: Seq<char> },
}

/// A single parsed line of a `.env` template.
#[derive(Debug, PartialEq)]
pub enum EnvLine {
    /// A blank line or comment, preserved as-is.
    Passthrough(String),
    /// `KEY=plain_value`, passed through unchanged.
    Plain { key: String, value: String },
    /// `KEY=en://secret_name`, resolved from the local store.
    LocalRef { key: String, secret_name: String },
    /// `KEY=en://global/secret_name`, resolved from the global store.
    GlobalRef { key: String, secret_name: String },
}

impl View for EnvLine {
    type V = EnvLineView;

    open spec fn view(&self) -> EnvLineView {
        match self {
            EnvLine::Passthrough(s) => EnvLineView::Passthrough(s@),
            EnvLine::Plain { key, value } => EnvLineView::Plain { key: key@, value: value@ },
            EnvLine::LocalRef { key, secret_name } => EnvLineView::LocalRef {
                key: key@,
                secret_name: secret_name@,
            },
            EnvLine::GlobalRef { key, secret_name } => EnvLineView::GlobalRef {
                key: key@,
                secret_name: secret_name@,
            },
        }
    }
}

/// How one line is classified, and whether it used a legacy prefix;
/// nothing for a malformed line (no `=`, empty key, or an empty
/// reference name).
pub open spec fn parse_line_spec(line: Seq<char>) -> Option<(EnvLineView, bool)> {
    let trimmed = trim_end_spec(line);
    if trimmed.len() == 0 || trimmed[0] == '#' {
        Some((EnvLineView::Passthrough(line), false))
    } else {
        let eq = find_char(trimmed, '=');
        if eq < 0 {
            None
        } else {
            let key = trim_spec(trimmed.take(eq));
            if key.len() == 0 {
                None
            } else {
                let value = trimmed.skip(eq + 1);
                if starts_with(value, "en://global/"@) {
                    let name = value.skip("en://global/"@.len() as int);
                    if name.len() == 0 {
                        None
                    } else {
                        Some((EnvLineView::GlobalRef { key, secret_name: name }, false))
                    }
                } else if starts_with(value, "en://"@) {
                    let name = value.skip("en://"@.len() as int);
                    if name.len() == 0 {
                        None
                    } else {
                        Some((EnvLineView::LocalRef { key, secret_name: name }, false))
                    }
                } else if starts_with(value, "ev://global/"@) {
                    let name = value.skip("ev://global/"@.len() as int);
                    if name.len() == 0 {
                        None
                    } else {
                        Some((EnvLineView::GlobalRef { key, secret_name: name }, true))
                    }
                } else if starts_with(value, "ev://"@) {
                    let name = value.skip("ev://"@.len() as int);
                    if name.len() == 0 {
                        None
                    } else {
                        Some((EnvLineView::LocalRef { key, secret_name: name }, true))
                    }
                } else {
                    Some((EnvLineView::Plain { key, value }, false))
                }
            }
        }
    }
}

/// One trailing carriage return removed, as line splitting does.
pub open spec fn strip_cr(s: Seq<char>) -> Seq<char> {
    if s.len() > 0 && s.last() == '\r' {
        s.drop_last()
    } else {
        s
    }
}

/// The text split at newlines: no trailing empty line, and a carriage
/// return before each newline removed.
pub open spec fn split_lines_spec(text: Seq<char>) -> Seq<Seq<char>>
    decreases text.len(),
{
    if text.len() == 0 {
        Seq::empty()
    } else {
        let i = find_char(text, '\n');
        if i < 0 || i >= text.len() {
            seq![text]
        } else {
            seq![strip_cr(text.take(i))] + split_lines_spec(text.skip(i + 1))
        }
    }
}

/// All lines classified, or nothing as soon as one is malformed.
pub open spec fn parse_lines_spec(lines: Seq<Seq<char>>) -> Option<Seq<EnvLineView>>
    decreases lines.len(),
{
    if lines.len() == 0 {
        Some(Seq::empty())
    } else {
        match parse_line_spec(lines[0]) {
            None => None,
            Some(head) => match parse_lines_spec(lines.skip(1)) {
                None => None,
                Some(tail) => Some(seq![head.0] + tail),
            },
        }
    }
}

/// What parsing a whole template yields.
pub open spec fn parse_spec(text: Seq<char>) -> Option<Seq<EnvLineView>> {
    parse_lines_spec(split_lines_spec(text))
}

/// Decides `is_space` for one character.
fn is_space_char(c: char) -> (r: bool)
    ensures
        r == is_space(c),
{
    c == ' ' || c == '\t' || c == '\r'
}

/// The first position of `c` in `s[from..to]`, scanning forward.
fn find_in_region(s: &str, from: usize, to: usize, c: char) -> (r: Option<usize>)
    requires
        from <= to <= s@.len(),
    ensures
        match r {
            Some(i) => from <= i < to && s@[i as int] == c && forall|j: int|
                from <= j < i ==> s@[j] != c,
            None => forall|j: int| from <= j < to ==> s@[j] != c,
        },
{
    let mut i = from;
    while i < to
        invariant
            from <= i <= to <= s@.len(),
            forall|j: int| from <= j < i ==> s@[j] != c,
        decreases to - i,
    {
        if s.get_char(i) == c {
            return Some(i);
        }
        i = i + 1;
    }
    None
}

/// Whether `s[from..to]` begins with `prefix`.
fn region_has_prefix(s: &str, from: usize, to: usize, prefix: &str) -> (r: bool)
    requires
        from <= to <= s@.len(),
    ensures
        r == starts_with(s@.subrange(from as int, to as int), prefix@),
{
    let plen = prefix.unicode_len();
    if to - from < plen {
        proof {
            assert(s@.subrange(from as int, to as int).len() < prefix@.len());
        }
        return false;
    }
    let mut i: usize = 0;
    while i < plen
        invariant
            0 <= i <= plen,
            plen == prefix@.len(),
            from <= to <= s@.len(),
            to - from >= plen,
            forall|j: int| 0 <= j < i ==> s@[from + j] == prefix@[j],
        decreases plen - i,
    {
        if s.get_char(from + i) != prefix.get_char(i) {
            proof {
                let region = s@.subrange(from as int, to as int);
                assert(region[i as int] == s@[from + i]);
                if starts_with(region, prefix@) {
                    assert(region.take(plen as int)[i as int] == prefix@[i as int]);
                }
            }
            return false;
        }
        i = i + 1;
    }
    proof {
        let region = s@.subrange(from as int, to as int);
        assert(region.take(plen as int) =~= prefix@);
    }
    true
}

/// Parses one line; reports whether it used a legacy reference prefix.
pub fn parse_line(line: &str) -> (r: Result<(EnvLine, bool), EnjectError>)
    ensures
        match r {
            Ok(parsed) => parse_line_spec(line@) == Some((parsed.0@, parsed.1)),
            Err(e) => parse_line_spec(line@) is None && e matches EnjectError::Config(_),
        },
{
    let n = line.unicode_len();
    // position after the last non-space character
    let mut te: usize = 0;
    let mut i: usize = 0;
    while i < n
        invariant
            0 <= te <= i <= n,
            n == line@.len(),
            forall|j: int| te <= j < i ==> is_space(#[trigger] line@[j]),
            te > 0 ==> !is_space(line@[te - 1]),
        decreases n - i,
    {
        if !is_space_char(line.get_char(i)) {
            te = i + 1;
        }
        i = i + 1;
    }
    proof {
        lemma_trim_end_at(line@, te as int);
    }
    let ghost trimmed = trim_end_spec(line@);
    if te == 0 {
        return Ok((EnvLine::Passthrough(String::from_str(line)), false));
    }
    if line.get_char(0) == '#' {
        proof {
            assert(trimmed[0] == line@[0]);
        }
        return Ok((EnvLine::Passthrough(String::from_str(line)), false));
    }
    let eq = match find_in_region(line, 0, te, '=') {
        Some(eq) => {
            proof {
                assert forall|j: int| 0 <= j < eq implies trimmed[j] != '=' by {
                    assert(trimmed[j] == line@[j]);
                }
                lemma_find_char_is(trimmed, '=', eq as int);
            }
            eq
        },
        None => {
            proof {
                assert forall|j: int| 0 <= j < trimmed.len() implies trimmed[j] != '=' by {
                    assert(trimmed[j] == line@[j]);
                }
                lemma_find_char_absent(trimmed, '=');
            }
            return Err(
                EnjectError::Config(
                    String::from_str("malformed template line (no '=' found): ").concat(line),
                ),
            );
        },
    };
    // the key's bounds inside [0, eq), with surrounding whitespace dropped
    let mut ks: usize = eq;
    let mut ke: usize = 0;
    let mut j: usize = 0;
    while j < eq
        invariant
            0 <= j <= eq,
            eq < n,
            n == line@.len(),
            ks <= eq,
            ke <= j,
            ks == eq ==> ke == 0 && forall|p: int| 0 <= p < j ==> is_space(#[trigger] line@[p]),
            ks < eq ==> ks < j && !is_space(line@[ks as int]) && ke >= ks + 1 && forall|p: int|
                0 <= p < ks ==> is_space(#[trigger] line@[p]),
            ke > 0 ==> ke <= j && !is_space(line@[ke - 1]) && forall|p: int|
                ke <= p < j ==> is_space(#[trigger] line@[p]),
        decreases eq - j,
    {
        if !is_space_char(line.get_char(j)) {
            if ks == eq {
                ks = j;
            }
            ke = j + 1;
        }
        j = j + 1;
    }
    let ghost key_region = trimmed.take(eq as int);
    proof {
        if ke == 0 {
            assert forall|p: int| 0 <= p < key_region.len() implies is_space(
                #[trigger] key_region[p],
            ) by {
                assert(key_region[p] == line@[p]);
                assert(is_space(line@[p]));
            }
            lemma_trim_end_at(key_region, 0);
            assert(key_region.take(0) =~= Seq::<char>::empty());
            lemma_trim_start_at(Seq::<char>::empty(), 0);
        } else {
            assert(ks < ke <= eq);
            assert forall|p: int| ke <= p < key_region.len() implies is_space(
                #[trigger] key_region[p],
            ) by {
                assert(key_region[p] == line@[p]);
                assert(is_space(line@[p]));
            }
            assert(key_region[ke - 1] == line@[ke - 1]);
            lemma_trim_end_at(key_region, ke as int);
            assert(key_region.take(ke as int) =~= line@.take(ke as int));
            let key_head = line@.take(ke as int);
            assert forall|p: int| 0 <= p < ks implies is_space(#[trigger] key_head[p]) by {
                assert(key_head[p] == line@[p]);
                assert(is_space(line@[p]));
            }
            assert(key_head[ks as int] == line@[ks as int]);
            lemma_trim_start_at(key_head, ks as int);
            assert(key_head.skip(ks as int) =~= line@.subrange(ks as int, ke as int));
        }
    }
    if ke == 0 {
        return Err(
            EnjectError::Config(
                String::from_str("malformed template line (empty key): ").concat(line),
            ),
        );
    }
    let key = String::from_str(line.substring_char(ks, ke));
    let ghost value = trimmed.skip(eq + 1);
    proof {
        assert(value =~= line@.subrange(eq + 1, te as int));
    }
    let vs = eq + 1;
    if region_has_prefix(line, vs, te, "en://global/") {
        let plen = "en://global/".unicode_len();
        return finish_ref(line, vs, plen, te, key, true, false);
    }
    if region_has_prefix(line, vs, te, "en://") {
        let plen = "en://".unicode_len();
        return finish_ref(line, vs, plen, te, key, false, false);
    }
    if region_has_prefix(line, vs, te, "ev://global/") {
        let plen = "ev://global/".unicode_len();
        return finish_ref(line, vs, plen, te, key, true, true);
    }
    if region_has_prefix(line, vs, te, "ev://") {
        let plen = "ev://".unicode_len();
        return finish_ref(line, vs, plen, te, key, false, true);
    }
    let value_text = String::from_str(line.substring_char(vs, te));
    Ok((EnvLine::Plain { key, value: value_text }, false))
}

/// Parses a whole template into its lines; the first malformed line
/// fails the whole parse, with no partial result.
pub fn parse(content: &str) -> (r: Result<Vec<EnvLine>, EnjectError>)
    ensures
        match r {
            Ok(lines) => parse_spec(content@) == Some(lines@.map_values(|l: EnvLine| l@)),
            Err(e) => parse_spec(content@) is None && e matches EnjectError::Config(_),
        },
{
    let n = content.unicode_len();
    let mut out: Vec<EnvLine> = Vec::new();
    let mut pos: usize = 0;
    proof {
        assert(content@.skip(0) =~= content@);
        assert(out@.map_values(|l: EnvLine| l@) =~= Seq::<EnvLineView>::empty());
        let d = parse_lines_spec(split_lines_spec(content@));
        assert(d matches Some(t) ==> Seq::<EnvLineView>::empty() + t =~= t);
    }
    while pos < n
        invariant
            0 <= pos <= n,
            n == content@.len(),
            parse_lines_spec(split_lines_spec(content@)) == match parse_lines_spec(
                split_lines_spec(content@.skip(pos as int)),
            ) {
                None => None::<Seq<EnvLineView>>,
                Some(t) => Some(out@.map_values(|l: EnvLine| l@) + t),
            },
        decreases n - pos,
    {
        let ghost suffix = content@.skip(pos as int);
        let (line_end, next_pos) = match find_in_region(content, pos, n, '\n') {
            Some(i) => {
                let le = if i > pos && content.get_char(i - 1) == '\r' {
                    i - 1
                } else {
                    i
                };
                proof {
                    assert forall|j: int| 0 <= j < i - pos implies suffix[j] != '\n' by {
                        assert(suffix[j] == content@[pos + j]);
                    }
                    assert(suffix[i - pos] == content@[i as int]);
                    lemma_find_char_is(suffix, '\n', i - pos);
                    assert(strip_cr(suffix.take(i - pos)) =~= content@.subrange(
                        pos as int,
                        le as int,
                    ));
                    assert(suffix.skip(i - pos + 1) =~= content@.skip(i + 1));
                }
                (le, i + 1)
            },
            None => {
                proof {
                    assert forall|j: int| 0 <= j < suffix.len() implies suffix[j] != '\n' by {
                        assert(suffix[j] == content@[pos + j]);
                    }
                    lemma_find_char_absent(suffix, '\n');
                    assert(suffix =~= content@.subrange(pos as int, n as int));
                    assert(content@.skip(n as int).len() == 0);
                }
                (n, n)
            },
        };
        let line_str = content.substring_char(pos, line_end);
        let ghost line_view = content@.subrange(pos as int, line_end as int);
        proof {
            let rest = split_lines_spec(content@.skip(next_pos as int));
            if content@.skip(next_pos as int).len() == 0 {
                assert(rest =~= Seq::<Seq<char>>::empty());
                assert(seq![line_view] + rest =~= seq![line_view]);
            }
            assert(split_lines_spec(suffix) == seq![line_view] + rest);
            assert((seq![line_view] + rest).skip(1) =~= rest);
            assert((seq![line_view] + rest)[0] == line_view);
        }
        match parse_line(line_str) {
            Ok(parsed) => {
                let ghost v = parsed.0@;
                let ghost out_old = out@.map_values(|l: EnvLine| l@);
                out.push(parsed.0);
                proof {
                    assert(out@.map_values(|l: EnvLine| l@) =~= out_old.push(v));
                    let d = parse_lines_spec(split_lines_spec(content@.skip(next_pos as int)));
                    assert(d matches Some(t) ==> out_old + (seq![v] + t) =~= out_old.push(v) + t);
                }
                pos = next_pos;
            },
            Err(e) => {
                proof {
                    assert(parse_lines_spec(split_lines_spec(suffix)) is None);
                }
                return Err(e);
            },
        }
    }
    proof {
        assert(content@.skip(n as int).len() == 0);
        assert(split_lines_spec(content@.skip(n as int)) =~= Seq::<Seq<char>>::empty());
        assert(out@.map_values(|l: EnvLine| l@) + Seq::<EnvLineView>::empty() =~= out@.map_values(
            |l: EnvLine| l@,
        ));
    }
    Ok(out)
}

/// Builds the reference line for a recognized prefix, or the error for
/// an empty secret name.
fn finish_ref(
    line: &str,
    vs: usize,
    plen: usize,
    te: usize,
    key: String,
    global: bool,
    legacy: bool,
) -> (r: Result<(EnvLine, bool), EnjectError>)
    requires
        vs <= te <= line@.len(),
        plen <= te - vs,
    ensures
        ({
            let name = line@.subrange(vs as int, te as int).skip(plen as int);
            match r {
                Ok(parsed) => {
                    &&& name.len() > 0
                    &&& parsed.1 == legacy
                    &&& parsed.0@ == if global {
                        EnvLineView::GlobalRef { key: key@, secret_name: name }
                    } else {
                        EnvLineView::LocalRef { key: key@, secret_name: name }
                    }
                },
                Err(e) => name.len() == 0 && e matches EnjectError::Config(_),
            }
        }),
{
    proof {
        assert(line@.subrange(vs as int, te as int).skip(plen as int) =~= line@.subrange(
            vs + plen,
            te as int,
        ));
    }
    if te - vs == plen {
        return Err(
            EnjectError::Config(
                String::from_str("malformed reference (empty secret name): ").concat(line),
            ),
        );
    }
    let name = String::from_str(line.substring_char(vs + plen, te));
    if global {
        Ok((EnvLine::GlobalRef { key, secret_name: name }, legacy))
    } else {
        Ok((EnvLine::LocalRef { key, secret_name: name }, legacy))
    }
}

/// What one line contributes to the environment: nothing, a binding, or
/// the name of the unresolved secret (scope-prefixed for a global one).
pub open spec fn line_binding(
    l: EnvLineView,
    local: Map<Seq<char>, Seq<char>>,
    global: Map<Seq<char>, Seq<char>>,
) -> Result<Option<(Seq<char>, Seq<char>)>, Seq<char>> {
    match l {
        EnvLineView::Passthrough(_) => Ok(None),
        EnvLineView::Plain { key, value } => Ok(Some((key, value))),
        EnvLineView::LocalRef { key, secret_name } => if local.contains_key(secret_name) {
            Ok(Some((key, local[secret_name])))
        } else {
            Err(secret_name)
        },
        EnvLineView::GlobalRef { key, secret_name } => if global.contains_key(secret_name) {
            Ok(Some((key, global[secret_name])))
        } else {
            Err("global/"@ + secret_name)
        },
    }
}

/// The flat environment the lines resolve to, or the first unresolved
/// name: all or nothing, later bindings of a key replacing earlier ones.
pub open spec fn resolve_spec(
    lines: Seq<EnvLineView>,
    local: Map<Seq<char>, Seq<char>>,
    global: Map<Seq<char>, Seq<char>>,
) -> Result<Map<Seq<char>, Seq<char>>, Seq<char>>
    decreases lines.len(),
{
    if lines.len() == 0 {
        Ok(Map::empty())
    } else {
        match resolve_spec(lines.drop_last(), local, global) {
            Err(name) => Err(name),
            Ok(env) => match line_binding(lines.last(), local, global) {
                Err(name) => Err(name),
                Ok(None) => Ok(env),
                Ok(Some(kv)) => Ok(env.insert(kv.0, kv.1)),
            },
        }
    }
}

/// A failure among the first lines decides the whole resolution.
proof fn lemma_resolve_prefix_err(
    lines: Seq<EnvLineView>,
    local: Map<Seq<char>, Seq<char>>,
    global: Map<Seq<char>, Seq<char>>,
    i: int,
)
    requires
        0 <= i <= lines.len(),
        resolve_spec(lines.take(i), local, global) is Err,
    ensures
        resolve_spec(lines, local, global) == resolve_spec(lines.take(i), local, global),
    decreases lines.len() - i,
{
    if i == lines.len() {
        assert(lines.take(i) =~= lines);
    } else {
        assert(lines.take(i + 1).drop_last() =~= lines.take(i));
        lemma_resolve_prefix_err(lines, local, global, i + 1);
    }
}

/// Resolves parsed lines against the two secret maps.
///
/// On success the environment binds exactly what the lines say; any
/// single unresolved reference aborts the whole resolution, reporting
/// the first missing secret's name, with no partial environment.
pub fn resolve(
    lines: &Vec<EnvLine>,
    local_secrets: &StringMap,
    global_secrets: &StringMap,
) -> (r: Result<StringMap, EnjectError>)
    requires
        local_secrets.wf(),
        global_secrets.wf(),
    ensures
        match r {
            Ok(env) => env.wf() && resolve_spec(
                lines@.map_values(|l: EnvLine| l@),
                local_secrets@,
                global_secrets@,
            ) == Ok::<_, Seq<char>>(env@),
            Err(e) => resolve_spec(
                lines@.map_values(|l: EnvLine| l@),
                local_secrets@,
                global_secrets@,
            ) matches Err(name) && e matches EnjectError::SecretNotFound(missing) && missing@
                == name,
        },
{
    let ghost lv = lines@.map_values(|l: EnvLine| l@);
    let mut env = StringMap::new();
    let n = lines.len();
    let mut i: usize = 0;
    proof {
        assert(lv.take(0) =~= Seq::<EnvLineView>::empty());
    }
    while i < n
        invariant
            0 <= i <= n,
            n == lines@.len(),
            lv == lines@.map_values(|l: EnvLine| l@),
            local_secrets.wf(),
            global_secrets.wf(),
            env.wf(),
            resolve_spec(lv.take(i as int), local_secrets@, global_secrets@) == Ok::<
                _,
                Seq<char>,
            >(env@),
        decreases n - i,
    {
        proof {
            assert(lv.take(i + 1).drop_last() =~= lv.take(i as int));
            assert(lv.take(i + 1).last() == lv[i as int]);
            assert(lv[i as int] == lines@[i as int]@);
        }
        match &lines[i] {
            EnvLine::Passthrough(_) => {},
            EnvLine::Plain { key, value } => {
                env.insert(key.clone(), value.clone());
            },
            EnvLine::LocalRef { key, secret_name } => {
                match local_secrets.get(secret_name.as_str()) {
                    Some(value) => {
                        env.insert(key.clone(), value.clone());
                    },
                    None => {
                        proof {
                            lemma_resolve_prefix_err(
                                lv,
                                local_secrets@,
                                global_secrets@,
                                i + 1,
                            );
                        }
                        return Err(EnjectError::SecretNotFound(secret_name.clone()));
                    },
                }
            },
            EnvLine::GlobalRef { key, secret_name } => {
                match global_secrets.get(secret_name.as_str()) {
                    Some(value) => {
                        env.insert(key.clone(), value.clone());
                    },
                    None => {
                        proof {
                            lemma_resolve_prefix_err(
                                lv,
                                local_secrets@,
                                global_secrets@,
                                i + 1,
                            );
                        }
                        return Err(
                            EnjectError::SecretNotFound(
                                String::from_str("global/").concat(secret_name.as_str()),
                            ),
                        );
                    },
                }
            },
        }
        i = i + 1;
    }
    proof {
        assert(lv.take(n as int) =~= lv);
    }
    Ok(env)
}

/// The text the templatizer prints for one parsed line.
pub open spec fn templatize_line(l: EnvLineView) -> Seq<char> {
    match l {
        EnvLineView::Passthrough(s) => s,
        EnvLineView::Plain { key, value } => key + "=en://"@ + key,
        EnvLineView::LocalRef { key, secret_name } => key + "=en://"@ + secret_name,
        EnvLineView::GlobalRef { key, secret_name } => key + "=en://global/"@ + secret_name,
    }
}

/// Prints parsed lines back as template text, one string per line:
/// passthrough lines verbatim, every literal assignment as a local
/// reference named after its own key, and existing references with
/// their original names and scope.
pub fn templatize(lines: &Vec<EnvLine>) -> (r: Vec<String>)
    ensures
        r@.len() == lines@.len(),
        forall|i: int| 0 <= i < lines@.len() ==> r@[i]@ == templatize_line(lines@[i]@),
{
    let n = lines.len();
    let mut out: Vec<String> = Vec::new();
    let mut i: usize = 0;
    while i < n
        invariant
            0 <= i <= n,
            n == lines@.len(),
            out@.len() == i,
            forall|j: int| 0 <= j < i ==> out@[j]@ == templatize_line(lines@[j]@),
        decreases n - i,
    {
        let rendered = match &lines[i] {
            EnvLine::Passthrough(s) => s.clone(),
            EnvLine::Plain { key, value: _ } => key.clone().concat("=en://").concat(key.as_str()),
            EnvLine::LocalRef { key, secret_name } => key.clone().concat("=en://").concat(
                secret_name.as_str(),
            ),
            EnvLine::GlobalRef { key, secret_name } => key.clone().concat("=en://global/").concat(
                secret_name.as_str(),
            ),
        };
        out.push(rendered);
        i = i + 1;
    }
    out
}

/// The templatizer's output for a whole line sequence.
pub open spec fn templatize_spec(lines: Seq<EnvLineView>) -> Seq<Seq<char>> {
    lines.map_values(|l: EnvLineView| templatize_line(l))
}

/// `s` holds no newline.
pub open spec fn no_newline(s: Seq<char>) -> bool {
    forall|j: int| 0 <= j < s.len() ==> s[j] != '\n'
}

/// A key as a reference line prints it and parsing reads it back:
/// nonempty, trimmed, no comment marker in front, and free of `=` and
/// line breaks.
pub open spec fn stable_ref_key(key: Seq<char>) -> bool {
    &&& key.len() > 0
    &&& !is_space(key[0])
    &&& !is_space(key.last())
    &&& key[0] != '#'
    &&& forall|j: int| 0 <= j < key.len() ==> key[j] != '='
    &&& no_newline(key)
}

/// A secret name that survives printing and re-parsing: nonempty, no
/// trailing whitespace, no line break.
pub open spec fn stable_ref_name(name: Seq<char>) -> bool {
    &&& name.len() > 0
    &&& !is_space(name.last())
    &&& no_newline(name)
}

/// A line of an already-templatized file: a passthrough or reference
/// line that the templatizer itself could have printed, and whose text
/// survives joining, splitting and re-parsing unchanged. A local name
/// must not begin with the global scope marker, which re-parsing would
/// read as a global reference.
pub open spec fn templatized_line(l: EnvLineView) -> bool {
    match l {
        EnvLineView::Passthrough(s) => {
            &&& trim_end_spec(s).len() == 0 || trim_end_spec(s)[0] == '#'
            &&& no_newline(s)
            &&& s.len() > 0 ==> s.last() != '\r'
        },
        EnvLineView::Plain { key, value } => false,
        EnvLineView::LocalRef { key, secret_name } => stable_ref_key(key) && stable_ref_name(
            secret_name,
        ) && !starts_with(secret_name, "global/"@),
        EnvLineView::GlobalRef { key, secret_name } => stable_ref_key(key) && stable_ref_name(
            secret_name,
        ),
    }
}

/// Lines joined with newlines, as template text.
pub open spec fn join_lines(lines: Seq<Seq<char>>) -> Seq<char>
    decreases lines.len(),
{
    if lines.len() == 0 {
        Seq::empty()
    } else if lines.len() == 1 {
        lines[0]
    } else {
        lines[0] + seq!['\n'] + join_lines(lines.skip(1))
    }
}

/// One templatized line parses back to exactly itself, with no legacy
/// marker.
pub proof fn lemma_parse_line_of_templatized(l: EnvLineView)
    requires
        templatized_line(l),
    ensures
        parse_line_spec(templatize_line(l)) == Some((l, false)),
{
    reveal_strlit("=en://");
    reveal_strlit("en://");
    reveal_strlit("=en://global/");
    reveal_strlit("en://global/");
    reveal_strlit("global/");
    match l {
        EnvLineView::Passthrough(s) => {},
        EnvLineView::Plain { key, value } => {},
        EnvLineView::LocalRef { key, secret_name } => {
            let name = secret_name;
            let rendered = key + "=en://"@ + name;
            assert(rendered.last() == name.last());
            assert(trim_end_spec(rendered) == rendered);
            assert(rendered[0] == key[0]);
            assert(rendered[key.len() as int] == '=');
            assert forall|j: int| 0 <= j < key.len() implies rendered[j] != '=' by {
                assert(rendered[j] == key[j]);
            }
            lemma_find_char_is(rendered, '=', key.len() as int);
            assert(rendered.take(key.len() as int) =~= key);
            lemma_trim_of_trimmed(key);
            let value = rendered.skip(key.len() as int + 1);
            assert(value =~= "en://"@ + name);
            if starts_with(value, "en://global/"@) {
                assert(name.len() >= 7);
                assert forall|j: int| 0 <= j < 7 implies name[j] == "global/"@[j] by {
                    assert(name[j] == value[5 + j]);
                    assert(value.take(12)[5 + j] == "en://global/"@[5 + j]);
                }
                assert(name.take(7) =~= "global/"@);
                assert(starts_with(name, "global/"@));
            }
            assert(value.take(5) =~= "en://"@);
            assert(starts_with(value, "en://"@));
            assert(value.skip(5) =~= name);
        },
        EnvLineView::GlobalRef { key, secret_name } => {
            let name = secret_name;
            let rendered = key + "=en://global/"@ + name;
            assert(rendered.last() == name.last());
            assert(trim_end_spec(rendered) == rendered);
            assert(rendered[0] == key[0]);
            assert(rendered[key.len() as int] == '=');
            assert forall|j: int| 0 <= j < key.len() implies rendered[j] != '=' by {
                assert(rendered[j] == key[j]);
            }
            lemma_find_char_is(rendered, '=', key.len() as int);
            assert(rendered.take(key.len() as int) =~= key);
            lemma_trim_of_trimmed(key);
            let value = rendered.skip(key.len() as int + 1);
            assert(value =~= "en://global/"@ + name);
            assert(value.take(12) =~= "en://global/"@);
            assert(starts_with(value, "en://global/"@));
            assert(value.skip(12) =~= name);
        },
    }
}

/// Trimming does nothing to a key that carries no whitespace at its
/// ends.
proof fn lemma_trim_of_trimmed(key: Seq<char>)
    requires
        key.len() > 0,
        !is_space(key[0]),
        !is_space(key.last()),
    ensures
        trim_spec(key) == key,
{
    assert(trim_end_spec(key) == key);
    assert(trim_start_spec(key) == key);
}

/// A rendered templatized line holds no newline and does not end in a
/// carriage return.
proof fn lemma_rendered_splits_clean(l: EnvLineView)
    requires
        templatized_line(l),
    ensures
        no_newline(templatize_line(l)),
        templatize_line(l).len() > 0 ==> templatize_line(l).last() != '\r',
{
    reveal_strlit("=en://");
    reveal_strlit("=en://global/");
    match l {
        EnvLineView::Passthrough(s) => {},
        EnvLineView::Plain { key, value } => {},
        EnvLineView::LocalRef { key, secret_name } => {
            let rendered = key + "=en://"@ + secret_name;
            assert forall|j: int| 0 <= j < rendered.len() implies rendered[j] != '\n' by {
                if j < key.len() {
                    assert(rendered[j] == key[j]);
                } else if j < key.len() + 6 {
                    assert(rendered[j] == "=en://"@[j - key.len()]);
                } else {
                    assert(rendered[j] == secret_name[j - key.len() - 6]);
                }
            }
            assert(rendered.last() == secret_name.last());
        },
        EnvLineView::GlobalRef { key, secret_name } => {
            let rendered = key + "=en://global/"@ + secret_name;
            assert forall|j: int| 0 <= j < rendered.len() implies rendered[j] != '\n' by {
                if j < key.len() {
                    assert(rendered[j] == key[j]);
                } else if j < key.len() + 13 {
                    assert(rendered[j] == "=en://global/"@[j - key.len()]);
                } else {
                    assert(rendered[j] == secret_name[j - key.len() - 13]);
                }
            }
            assert(rendered.last() == secret_name.last());
        },
    }
}

/// Splitting joined lines gives the lines back, as long as none holds
/// a newline, none ends in a carriage return, and the last is not
/// empty.
proof fn lemma_split_join(lines: Seq<Seq<char>>)
    requires
        forall|i: int| 0 <= i < lines.len() ==> no_newline(#[trigger] lines[i]),
        forall|i: int|
            0 <= i < lines.len() ==> ((#[trigger] lines[i]).len() == 0 || lines[i].last() != '\r'),
        lines.len() > 0 ==> lines.last().len() > 0,
    ensures
        split_lines_spec(join_lines(lines)) == lines,
    decreases lines.len(),
{
    if lines.len() == 0 {
        assert(split_lines_spec(join_lines(lines)) =~= lines);
    } else if lines.len() == 1 {
        let s = lines[0];
        assert(s.len() > 0);
        lemma_find_char_absent(s, '\n');
        assert(split_lines_spec(join_lines(lines)) =~= lines);
    } else {
        let head = lines[0];
        let rest = join_lines(lines.skip(1));
        let text = head + seq!['\n'] + rest;
        assert(text[head.len() as int] == '\n');
        assert forall|j: int| 0 <= j < head.len() implies text[j] != '\n' by {
            assert(text[j] == head[j]);
        }
        lemma_find_char_is(text, '\n', head.len() as int);
        assert(text.take(head.len() as int) =~= head);
        assert(strip_cr(head) == head);
        assert(text.skip(head.len() as int + 1) =~= rest);
        assert forall|i: int| 0 <= i < lines.skip(1).len() implies no_newline(
            #[trigger] lines.skip(1)[i],
        ) && (lines.skip(1)[i].len() == 0 || lines.skip(1)[i].last() != '\r') by {
            assert(lines.skip(1)[i] == lines[i + 1]);
        }
        assert(lines.skip(1).last() == lines.last());
        lemma_split_join(lines.skip(1));
        assert(split_lines_spec(text) == seq![head] + lines.skip(1));
        assert(seq![head] + lines.skip(1) =~= lines);
    }
}

/// Parsing the rendered lines one by one gives the parsed lines back.
proof fn lemma_parse_templatized_lines(lines: Seq<EnvLineView>)
    requires
        forall|i: int| 0 <= i < lines.len() ==> templatized_line(#[trigger] lines[i]),
    ensures
        parse_lines_spec(templatize_spec(lines)) == Some(lines),
    decreases lines.len(),
{
    if lines.len() > 0 {
        let rendered = templatize_spec(lines);
        assert(rendered[0] == templatize_line(lines[0]));
        lemma_parse_line_of_templatized(lines[0]);
        assert(rendered.skip(1) =~= templatize_spec(lines.skip(1)));
        assert forall|i: int| 0 <= i < lines.skip(1).len() implies templatized_line(
            #[trigger] lines.skip(1)[i],
        ) by {
            assert(lines.skip(1)[i] == lines[i + 1]);
        }
        lemma_parse_templatized_lines(lines.skip(1));
        assert(seq![lines[0]] + lines.skip(1) =~= lines);
    }
}

/// Templatize/parse idempotence: printing an already-templatized file
/// — passthrough and reference lines only — and parsing the joined
/// text again reproduces exactly the same lines, every key and secret
/// name unchanged.
pub proof fn lemma_templatize_parse_round_trip(lines: Seq<EnvLineView>)
    requires
        forall|i: int| 0 <= i < lines.len() ==> templatized_line(#[trigger] lines[i]),
        lines.len() > 0 ==> templatize_line(lines.last()).len() > 0,
    ensures
        parse_spec(join_lines(templatize_spec(lines))) == Some(lines),
{
    let rendered = templatize_spec(lines);
    assert forall|i: int| 0 <= i < rendered.len() implies no_newline(#[trigger] rendered[i]) && (
    rendered[i].len() == 0 || rendered[i].last() != '\r') by {
        assert(rendered[i] == templatize_line(lines[i]));
        lemma_rendered_splits_clean(lines[i]);
    }
    if lines.len() > 0 {
        assert(rendered.last() == templatize_line(lines.last()));
    }
    lemma_split_join(rendered);
    lemma_parse_templatized_lines(lines);
}

} // verus!
