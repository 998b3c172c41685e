//! Resolution of wire names: case rules for variant and field identifiers.
use vstd::prelude::*;

verus! {

pub open spec fn is_ascii_upper(c: char) -> bool {
    'A' <= c && c <= 'Z'
}

pub open spec fn is_ascii_lower(c: char) -> bool {
    'a' <= c && c <= 'z'
}

/// `c` with an ASCII upper-case letter turned into its lower-case form.
pub open spec fn ascii_lower(c: char) -> char {
    if is_ascii_upper(c) { ((c as u32) + 32) as char } else { c }
}

/// `c` with an ASCII lower-case letter turned into its upper-case form.
pub open spec fn ascii_upper(c: char) -> char {
    if is_ascii_lower(c) { ((c as u32) - 32) as char } else { c }
}

/// Relies on `char::to_ascii_lowercase`: 'A'..='Z' map to 'a'..='z', all else is kept.
#[verifier::external_body]
fn to_lower(c: char) -> (r: char)
    ensures
        r == ascii_lower(c),
{
    c.to_ascii_lowercase()
}

/// Relies on `char::to_ascii_uppercase`: 'a'..='z' map to 'A'..='Z', all else is kept.
#[verifier::external_body]
fn to_upper(c: char) -> (r: char)
    ensures
        r == ascii_upper(c),
{
    c.to_ascii_uppercase()
}

/// Relies on `String::push`: appends one character.
#[verifier::external_body]
fn push_char(s: &mut String, c: char)
    ensures
        final(s)@ == old(s)@.push(c),
{
    s.push(c)
}

/// A case convention that a container may ask for its variant or field names.
#[derive(Clone, Copy, Debug, PartialEq, Eq, Structural)]
pub enum CaseRule {
    LowerCase,
    UpperCase,
    PascalCase,
    CamelCase,
    SnakeCase,
    ScreamingSnakeCase,
    KebabCase,
    ScreamingKebabCase,
}

/// The separator a rule puts between words: `'_'` or `'-'`.
pub open spec fn separator(rule: CaseRule) -> char {
    match rule {
        CaseRule::KebabCase | CaseRule::ScreamingKebabCase => '-',
        _ => '_',
    }
}

pub open spec fn is_screaming(rule: CaseRule) -> bool {
    rule == CaseRule::UpperCase || rule == CaseRule::ScreamingSnakeCase
        || rule == CaseRule::ScreamingKebabCase
}

/// What a variant identifier (PascalCase) gives at position `i` under `rule`.
pub open spec fn variant_piece(rule: CaseRule, s: Seq<char>, i: int) -> Seq<char> {
    let c = s[i];
    match rule {
        CaseRule::LowerCase => seq![ascii_lower(c)],
        CaseRule::UpperCase => seq![ascii_upper(c)],
        CaseRule::PascalCase => seq![c],
        CaseRule::CamelCase => if i == 0 { seq![ascii_lower(c)] } else { seq![c] },
        _ => {
            let cased = if is_screaming(rule) { ascii_upper(c) } else { ascii_lower(c) };
            if i > 0 && is_ascii_upper(c) { seq![separator(rule), cased] } else { seq![cased] }
        },
    }
}

/// A variant identifier (PascalCase) rewritten under `rule`.
pub open spec fn variant_case(rule: CaseRule, s: Seq<char>) -> Seq<char>
    decreases s.len(),
{
    if s.len() == 0 {
        Seq::empty()
    } else {
        variant_case(rule, s.drop_last()) + variant_piece(rule, s, s.len() - 1)
    }
}

/// No character of `s` before position `i` is anything but an underscore.
pub open spec fn only_underscores_before(s: Seq<char>, i: int) -> bool {
    forall|j: int| 0 <= j < i ==> s[j] == '_'
}

/// What a field identifier (snake_case) gives at position `i` under `rule`.
pub open spec fn field_piece(rule: CaseRule, s: Seq<char>, i: int) -> Seq<char> {
    let c = s[i];
    let after_break = i == 0 || s[i - 1] == '_';
    match rule {
        CaseRule::LowerCase | CaseRule::SnakeCase => seq![c],
        CaseRule::UpperCase | CaseRule::ScreamingSnakeCase => seq![ascii_upper(c)],
        CaseRule::KebabCase => if c == '_' { seq!['-'] } else { seq![c] },
        CaseRule::ScreamingKebabCase => if c == '_' { seq!['-'] } else { seq![ascii_upper(c)] },
        CaseRule::PascalCase => if c == '_' {
            Seq::empty()
        } else if after_break {
            seq![ascii_upper(c)]
        } else {
            seq![c]
        },
        CaseRule::CamelCase => if c == '_' {
            Seq::empty()
        } else if only_underscores_before(s, i) {
            seq![ascii_lower(c)]
        } else if after_break {
            seq![ascii_upper(c)]
        } else {
            seq![c]
        },
    }
}

/// A field identifier (snake_case) rewritten under `rule`.
pub open spec fn field_case(rule: CaseRule, s: Seq<char>) -> Seq<char>
    decreases s.len(),
{
    if s.len() == 0 {
        Seq::empty()
    } else {
        field_case(rule, s.drop_last()) + field_piece(rule, s, s.len() - 1)
    }
}

/// Rewrites a variant identifier under `rule`.
pub fn apply_to_variant(rule: CaseRule, ident: &str) -> (r: String)
    ensures
        r@ == variant_case(rule, ident@),
{
    let n = ident.unicode_len();
    let mut out = String::new();
    let mut i: usize = 0;
    while i < n
        invariant
            n == ident@.len(),
            i <= n,
            out@ == variant_case(rule, ident@.take(i as int)),
        decreases n - i,
    {
        let c = ident.get_char(i);
        let screaming = match rule {
            CaseRule::UpperCase | CaseRule::ScreamingSnakeCase | CaseRule::ScreamingKebabCase => true,
            _ => false,
        };
        let sep = match rule {
            CaseRule::KebabCase | CaseRule::ScreamingKebabCase => '-',
            _ => '_',
        };
        match rule {
            CaseRule::LowerCase => push_char(&mut out, to_lower(c)),
            CaseRule::UpperCase => push_char(&mut out, to_upper(c)),
            CaseRule::PascalCase => push_char(&mut out, c),
            CaseRule::CamelCase => {
                if i == 0 {
                    push_char(&mut out, to_lower(c));
                } else {
                    push_char(&mut out, c);
                }
            },
            _ => {
                if i > 0 && 'A' <= c && c <= 'Z' {
                    push_char(&mut out, sep);
                }
                if screaming {
                    push_char(&mut out, to_upper(c));
                } else {
                    push_char(&mut out, to_lower(c));
                }
            },
        }
        proof {
            let next = ident@.take(i + 1);
            assert(next.drop_last() =~= ident@.take(i as int));
            assert(variant_piece(rule, next, i as int) == variant_piece(rule, ident@, i as int));
            assert(out@ =~= variant_case(rule, next));
        }
        i = i + 1;
    }
    proof {
        assert(ident@.take(n as int) =~= ident@);
    }
    out
}

/// Rewrites a field identifier under `rule`.
pub fn apply_to_field(rule: CaseRule, ident: &str) -> (r: String)
    ensures
        r@ == field_case(rule, ident@),
{
    let n = ident.unicode_len();
    let mut out = String::new();
    let mut i: usize = 0;
    let mut seen_word = false;
    let mut prev = '_';
    while i < n
        invariant
            n == ident@.len(),
            i <= n,
            out@ == field_case(rule, ident@.take(i as int)),
            seen_word == !only_underscores_before(ident@, i as int),
            i > 0 ==> prev == ident@[i - 1],
        decreases n - i,
    {
        let c = ident.get_char(i);
        let after_break = i == 0 || prev == '_';
        match rule {
            CaseRule::LowerCase | CaseRule::SnakeCase => push_char(&mut out, c),
            CaseRule::UpperCase | CaseRule::ScreamingSnakeCase => push_char(&mut out, to_upper(c)),
            CaseRule::KebabCase => {
                if c == '_' {
                    push_char(&mut out, '-');
                } else {
                    push_char(&mut out, c);
                }
            },
            CaseRule::ScreamingKebabCase => {
                if c == '_' {
                    push_char(&mut out, '-');
                } else {
                    push_char(&mut out, to_upper(c));
                }
            },
            CaseRule::PascalCase => {
                if c == '_' {
                } else if after_break {
                    push_char(&mut out, to_upper(c));
                } else {
                    push_char(&mut out, c);
                }
            },
            CaseRule::CamelCase => {
                if c == '_' {
                } else if !seen_word {
                    push_char(&mut out, to_lower(c));
                } else if after_break {
                    push_char(&mut out, to_upper(c));
                } else {
                    push_char(&mut out, c);
                }
            },
        }
        proof {
            let next = ident@.take(i + 1);
            assert(next.drop_last() =~= ident@.take(i as int));
            if only_underscores_before(ident@, i as int) {
                assert forall|j: int| 0 <= j < i implies next[j] == '_' by {
                    assert(next[j] == ident@[j]);
                }
            }
            if only_underscores_before(next, i as int) {
                assert forall|j: int| 0 <= j < i implies ident@[j] == '_' by {
                    assert(next[j] == ident@[j]);
                }
            }
            assert(field_piece(rule, next, i as int) == field_piece(rule, ident@, i as int));
            assert(out@ =~= field_case(rule, next));
        }
        if c != '_' {
            seen_word = true;
        }
        prev = c;
        i = i + 1;
    }
    proof {
        assert(ident@.take(n as int) =~= ident@);
    }
    out
}

} // verus!

verus! {

/// The wire name of a field: an explicit rename wins, then a rule scoped to the
/// fields, then the container's rule, then lowerCamelCase.
pub open spec fn field_name_of(
    declared: Seq<char>,
    rename: Option<Seq<char>>,
    scoped: Option<CaseRule>,
    container: Option<CaseRule>,
) -> Seq<char> {
    match rename {
        Some(r) => r,
        None => match scoped {
            Some(rule) => field_case(rule, declared),
            None => match container {
                Some(rule) => field_case(rule, declared),
                None => field_case(CaseRule::CamelCase, declared),
            },
        },
    }
}

/// The wire name of a variant: an explicit rename wins, then the container's
/// rule; with neither the identifier is kept as declared.
pub open spec fn variant_name_of(
    declared: Seq<char>,
    rename: Option<Seq<char>>,
    container: Option<CaseRule>,
) -> Seq<char> {
    match rename {
        Some(r) => r,
        None => match container {
            Some(rule) => variant_case(rule, declared),
            None => declared,
        },
    }
}

pub open spec fn opt_view(o: Option<&str>) -> Option<Seq<char>> {
    match o {
        Some(s) => Some(s@),
        None => None,
    }
}

/// Resolves the wire name of a field.
pub fn field_wire_name(
    declared: &str,
    rename: Option<&str>,
    scoped: Option<CaseRule>,
    container: Option<CaseRule>,
) -> (r: String)
    ensures
        r@ == field_name_of(declared@, opt_view(rename), scoped, container),
{
    match rename {
        Some(name) => String::from_str(name),
        None => match scoped {
            Some(rule) => apply_to_field(rule, declared),
            None => match container {
                Some(rule) => apply_to_field(rule, declared),
                None => apply_to_field(CaseRule::CamelCase, declared),
            },
        },
    }
}

/// Resolves the wire name of a variant.
pub fn variant_wire_name(declared: &str, rename: Option<&str>, container: Option<CaseRule>) -> (r:
    String)
    ensures
        r@ == variant_name_of(declared@, opt_view(rename), container),
{
    match rename {
        Some(name) => String::from_str(name),
        None => match container {
            Some(rule) => apply_to_variant(rule, declared),
            None => String::from_str(declared),
        },
    }
}

} // verus!
