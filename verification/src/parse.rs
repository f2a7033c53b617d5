//! The textual input format: raw parse-tree types and the parser.
//!
//! The format is a block of transition lines between braces, followed by one
//! block per module listing its places with optional initial token counts:
//! names are ASCII letters, digits and underscores starting with a letter,
//! weights are unsigned integers in parentheses.

use vstd::prelude::*;
use vstd::string::StringSliceAdditionalSpecFns;

verus! {

/// The input's UTF-8 bytes, for the byte-level parser.
fn input_bytes(s: &str) -> (r: Vec<u8>)
    ensures
        r@ == s.spec_bytes(),
{
    vstd::string::StrSliceExecFns::as_bytes_vec(s)
}

/// One parsed place reference: a name, and a weight (an arc weight on a
/// transition line, an initial token count in a module block).
#[derive(Debug)]
pub struct RawParserPlace {
    pub name: String,
    pub weight: u8,
}

/// One parsed transition line: its name and its weighted input and output
/// place references.
#[derive(Debug)]
pub struct RawParserTransition {
    pub name: String,
    pub input_places: Vec<RawParserPlace>,
    pub output_places: Vec<RawParserPlace>,
}

/// One parsed module block: its name and its places.
#[derive(Debug)]
pub struct RawParserModule {
    pub name: String,
    pub places: Vec<RawParserPlace>,
}

/// The whole parsed input.
#[derive(Debug)]
pub struct RawParserInput {
    pub transitions: Vec<RawParserTransition>,
    pub modules: Vec<RawParserModule>,
}

/// An ASCII letter.
pub open spec fn is_alpha(c: u8) -> bool {
    (65 <= c <= 90) || (97 <= c <= 122)
}

/// An ASCII letter, digit or underscore.
pub open spec fn is_name_byte(c: u8) -> bool {
    is_alpha(c) || (48 <= c <= 57) || c == 95
}

/// A well-formed name: nonempty ASCII, a letter first, then letters,
/// digits and underscores.
pub open spec fn name_ok(s: Seq<char>) -> bool {
    &&& s.len() >= 1
    &&& is_alpha(s[0] as u8) && (s[0] as u32) < 128
    &&& forall|i: int|
        0 <= i < s.len() ==> is_name_byte((#[trigger] s[i]) as u8) && (s[i] as u32) < 128
}

/// Relies on `String::from_utf8`: ASCII bytes are valid UTF-8 and decode
/// to one char per byte, each with the byte's code point.
#[verifier::external_body]
fn ascii_to_string(v: Vec<u8>) -> (r: String)
    requires
        forall|i: int| 0 <= i < v@.len() ==> (#[trigger] v@[i]) < 128,
    ensures
        r@.len() == v@.len(),
        forall|i: int| 0 <= i < v@.len() ==> (#[trigger] r@[i]) == v@[i] as char,
{
    match String::from_utf8(v) {
        Ok(s) => s,
        Err(_) => String::new(),
    }
}

/// Skip spaces, tabs and line breaks.
fn skip_ws(b: &Vec<u8>, pos: usize) -> (r: usize)
    requires
        pos <= b@.len(),
    ensures
        pos <= r <= b@.len(),
{
    let mut p = pos;
    while p < b.len() && (b[p] == 32 || b[p] == 9 || b[p] == 13 || b[p] == 10)
        invariant
            pos <= p <= b@.len(),
        decreases b@.len() - p,
    {
        p += 1;
    }
    p
}

/// Skip spaces and tabs only.
fn skip_spaces(b: &Vec<u8>, pos: usize) -> (r: usize)
    requires
        pos <= b@.len(),
    ensures
        pos <= r <= b@.len(),
{
    let mut p = pos;
    while p < b.len() && (b[p] == 32 || b[p] == 9)
        invariant
            pos <= p <= b@.len(),
        decreases b@.len() - p,
    {
        p += 1;
    }
    p
}

/// Skip comment lines: `#` up to and including the line break.
fn skip_comments(b: &Vec<u8>, pos: usize) -> (r: usize)
    requires
        pos <= b@.len(),
    ensures
        pos <= r <= b@.len(),
{
    let mut p = skip_ws(b, pos);
    while p < b.len() && b[p] == 35
        invariant
            pos <= p <= b@.len(),
        decreases b@.len() - p,
    {
        p += 1;
        let mut q = p;
        while q < b.len() && b[q] != 10
            invariant
                p <= q <= b@.len(),
            decreases b@.len() - q,
        {
            q += 1;
        }
        p = skip_ws(b, q);
    }
    p
}

/// Parse a name at `pos`.  The error value is the offending offset.
fn parse_name(b: &Vec<u8>, pos: usize) -> (r: Result<(String, usize), usize>)
    requires
        pos <= b@.len(),
    ensures
        r matches Ok(out) ==> pos < out.1 <= b@.len() && name_ok(out.0@),
{
    if pos >= b.len() {
        return Err(pos);
    }
    let c0 = b[pos];
    if !((65 <= c0 && c0 <= 90) || (97 <= c0 && c0 <= 122)) {
        return Err(pos);
    }
    let mut v: Vec<u8> = Vec::new();
    let mut p = pos;
    while p < b.len() && ((65 <= b[p] && b[p] <= 90) || (97 <= b[p] && b[p] <= 122) || (48 <= b[p]
        && b[p] <= 57) || b[p] == 95)
        invariant
            pos <= p <= b@.len(),
            pos < b@.len(),
            is_alpha(b@[pos as int]),
            v@.len() == p - pos,
            v@.len() >= 1 ==> is_alpha(v@[0]) && v@[0] < 128,
            forall|i: int| 0 <= i < v@.len() ==> is_name_byte(#[trigger] v@[i]) && v@[i] < 128,
        decreases b@.len() - p,
    {
        v.push(b[p]);
        p += 1;
    }
    if p == pos {
        return Err(pos);
    }
    let s = ascii_to_string(v);
    proof {
        assert(is_alpha(s@[0] as u8) && (s@[0] as u32) < 128);
    }
    Ok((s, p))
}

/// Parse an unsigned integer that must fit the weight range.
fn parse_number(b: &Vec<u8>, pos: usize) -> (r: Result<(u8, usize), usize>)
    requires
        pos <= b@.len(),
    ensures
        r matches Ok(out) ==> pos < out.1 <= b@.len(),
{
    if pos >= b.len() || !(48 <= b[pos] && b[pos] <= 57) {
        return Err(pos);
    }
    let mut val: u32 = 0;
    let mut p = pos;
    while p < b.len() && 48 <= b[p] && b[p] <= 57
        invariant
            pos <= p <= b@.len(),
            val <= 255,
        decreases b@.len() - p,
    {
        let d = (b[p] - 48) as u32;
        if val > 25 || val * 10 + d > 255 {
            return Err(p);
        }
        val = val * 10 + d;
        p += 1;
    }
    Ok((val as u8, p))
}

/// Parse a place reference with an optional parenthesised weight; a
/// missing weight means `default`.
fn parse_place(b: &Vec<u8>, pos: usize, default: u8) -> (r: Result<(RawParserPlace, usize), usize>)
    requires
        pos <= b@.len(),
    ensures
        r matches Ok(out) ==> pos < out.1 <= b@.len() && name_ok(out.0.name@),
{
    let (name, mut p) = match parse_name(b, pos) {
        Ok(x) => x,
        Err(x) => {
            return Err(x);
        },
    };
    let mut weight = default;
    if p < b.len() && b[p] == 40 {
        let (w, p2) = match parse_number(b, p + 1) {
            Ok(x) => x,
            Err(x) => {
                return Err(x);
            },
        };
        if p2 >= b.len() || b[p2] != 41 {
            return Err(p2);
        }
        weight = w;
        p = p2 + 1;
    }
    Ok((RawParserPlace { name, weight }, p))
}

/// Parse a comma-separated place list (arc weights default to 1).
fn parse_arc_list(b: &Vec<u8>, pos: usize) -> (r: Result<(Vec<RawParserPlace>, usize), usize>)
    requires
        pos <= b@.len(),
    ensures
        r matches Ok(out) ==> pos <= out.1 <= b@.len() && forall|k: int|
            0 <= k < out.0@.len() ==> name_ok((#[trigger] out.0@[k]).name@),
{
    let mut places: Vec<RawParserPlace> = Vec::new();
    let mut p = skip_spaces(b, pos);
    if p >= b.len() || !((65 <= b[p] && b[p] <= 90) || (97 <= b[p] && b[p] <= 122)) {
        // An empty list is allowed on a transition line.
        return Ok((places, p));
    }
    loop
        invariant
            pos <= p <= b@.len(),
            forall|k: int| 0 <= k < places@.len() ==> name_ok((#[trigger] places@[k]).name@),
        ensures
            pos <= p <= b@.len(),
            forall|k: int| 0 <= k < places@.len() ==> name_ok((#[trigger] places@[k]).name@),
        decreases b@.len() - p,
    {
        let (pl, p2) = match parse_place(b, p, 1) {
            Ok(x) => x,
            Err(x) => {
                return Err(x);
            },
        };
        places.push(pl);
        let p3 = skip_spaces(b, p2);
        if p3 < b.len() && b[p3] == 44 {
            let p4 = skip_ws(b, p3 + 1);
            if p4 >= b.len() {
                return Err(p4);
            }
            p = p4;
        } else {
            p = p3;
            break;
        }
    }
    Ok((places, p))
}

/// Parse one transition line: `name: places -> places`.
fn parse_transition_line(b: &Vec<u8>, pos: usize) -> (r: Result<
    (RawParserTransition, usize),
    usize,
>)
    requires
        pos <= b@.len(),
    ensures
        r matches Ok(out) ==> pos < out.1 <= b@.len() && name_ok(out.0.name@) && (forall|k: int|
            0 <= k < out.0.input_places@.len() ==> name_ok(
                (#[trigger] out.0.input_places@[k]).name@,
            )) && (forall|k: int|
            0 <= k < out.0.output_places@.len() ==> name_ok(
                (#[trigger] out.0.output_places@[k]).name@,
            )),
{
    let (name, p1) = match parse_name(b, pos) {
        Ok(x) => x,
        Err(x) => {
            return Err(x);
        },
    };
    let p1b = skip_spaces(b, p1);
    if p1b >= b.len() || b[p1b] != 58 {
        return Err(p1b);
    }
    let (input_places, p2) = match parse_arc_list(b, p1b + 1) {
        Ok(x) => x,
        Err(x) => {
            return Err(x);
        },
    };
    let p2b = skip_ws(b, p2);
    if p2b >= b.len() {
        return Err(p2b);
    }
    if p2b + 1 >= b.len() || b[p2b] != 45 || b[p2b + 1] != 62 {
        return Err(p2b);
    }
    let (output_places, p3) = match parse_arc_list(b, p2b + 2) {
        Ok(x) => x,
        Err(x) => {
            return Err(x);
        },
    };
    if p3 <= pos {
        return Err(p3);
    }
    Ok((RawParserTransition { name, input_places, output_places }, p3))
}

/// Parse one module block: `name { places }` with `,` or line breaks
/// between places (initial counts default to 0).
fn parse_module(b: &Vec<u8>, pos: usize) -> (r: Result<(RawParserModule, usize), usize>)
    requires
        pos <= b@.len(),
    ensures
        r matches Ok(out) ==> pos < out.1 <= b@.len() && name_ok(out.0.name@) && forall|k: int|
            0 <= k < out.0.places@.len() ==> name_ok((#[trigger] out.0.places@[k]).name@),
{
    let p0 = skip_ws(b, pos);
    let (name, p1) = match parse_name(b, p0) {
        Ok(x) => x,
        Err(x) => {
            return Err(x);
        },
    };
    let p1b = skip_spaces(b, p1);
    if p1b >= b.len() || b[p1b] != 123 {
        return Err(p1b);
    }
    let mut places: Vec<RawParserPlace> = Vec::new();
    let mut p = skip_ws(b, p1b + 1);
    while p < b.len() && b[p] != 125
        invariant
            pos < p <= b@.len(),
            forall|k: int| 0 <= k < places@.len() ==> name_ok((#[trigger] places@[k]).name@),
        decreases b@.len() - p,
    {
        let (pl, p2) = match parse_place(b, p, 0) {
            Ok(x) => x,
            Err(x) => {
                return Err(x);
            },
        };
        places.push(pl);
        let p3 = skip_spaces(b, p2);
        if p3 < b.len() && b[p3] == 44 {
            p = skip_ws(b, p3 + 1);
        } else {
            p = skip_ws(b, p3);
        }
    }
    if p >= b.len() {
        return Err(p);
    }
    Ok((RawParserModule { name, places }, p + 1))
}

/// Parse the whole input: optional comment lines, a braced block of
/// transition lines, then one or more module blocks.
pub fn parse(input: &str) -> (r: Result<RawParserInput, usize>)
    ensures
        r matches Ok(out) ==> {
            &&& forall|i: int|
                0 <= i < out.transitions@.len() ==> name_ok(
                    (#[trigger] out.transitions@[i]).name@,
                ) && (forall|k: int|
                    0 <= k < out.transitions@[i].input_places@.len() ==> name_ok(
                        (#[trigger] out.transitions@[i].input_places@[k]).name@,
                    )) && (forall|k: int|
                    0 <= k < out.transitions@[i].output_places@.len() ==> name_ok(
                        (#[trigger] out.transitions@[i].output_places@[k]).name@,
                    ))
            &&& forall|m: int|
                0 <= m < out.modules@.len() ==> name_ok((#[trigger] out.modules@[m]).name@)
                    && forall|k: int|
                    0 <= k < out.modules@[m].places@.len() ==> name_ok(
                        (#[trigger] out.modules@[m].places@[k]).name@,
                    )
            &&& out.modules@.len() >= 1
        },
{
    let b = input_bytes(input);
    let mut p = skip_comments(&b, 0);
    if p >= b.len() || b[p] != 123 {
        return Err(p);
    }
    p = skip_ws(&b, p + 1);
    let mut transitions: Vec<RawParserTransition> = Vec::new();
    while p < b.len() && b[p] != 125
        invariant
            p <= b@.len(),
            forall|i: int|
                0 <= i < transitions@.len() ==> name_ok((#[trigger] transitions@[i]).name@) && (
                forall|k: int|
                    0 <= k < transitions@[i].input_places@.len() ==> name_ok(
                        (#[trigger] transitions@[i].input_places@[k]).name@,
                    )) && (forall|k: int|
                    0 <= k < transitions@[i].output_places@.len() ==> name_ok(
                        (#[trigger] transitions@[i].output_places@[k]).name@,
                    )),
        decreases b@.len() - p,
    {
        let (tr, p2) = match parse_transition_line(&b, p) {
            Ok(x) => x,
            Err(x) => {
                return Err(x);
            },
        };
        transitions.push(tr);
        p = skip_ws(&b, p2);
    }
    if p >= b.len() {
        return Err(p);
    }
    p = skip_ws(&b, p + 1);
    let mut modules: Vec<RawParserModule> = Vec::new();
    while p < b.len()
        invariant
            p <= b@.len(),
            forall|m: int|
                0 <= m < modules@.len() ==> name_ok((#[trigger] modules@[m]).name@) && forall|
                    k: int,
                |
                    0 <= k < modules@[m].places@.len() ==> name_ok(
                        (#[trigger] modules@[m].places@[k]).name@,
                    ),
        decreases b@.len() - p,
    {
        let (md, p2) = match parse_module(&b, p) {
            Ok(x) => x,
            Err(x) => {
                return Err(x);
            },
        };
        modules.push(md);
        p = skip_ws(&b, p2);
    }
    if modules.len() == 0 {
        return Err(p);
    }
    Ok(RawParserInput { transitions, modules })
}

} // verus!
