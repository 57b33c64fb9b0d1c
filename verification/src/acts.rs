//! Hand-written reader for the ACTS parameter-model format: bracketed
//! sections, with `name (type) : value, value, ...` lines in the parameter
//! section. The grammar is a collaborator interface; the contract pins the
//! shape of the parsed request, not the grammar.

use vstd::prelude::*;
use vstd::string::StrSliceExecFns;
use crate::caspec::{build_request, RequestedCA};
use crate::text::{find_char, range_is, split_values, token, trim_range};

verus! {

/// Tries to read `contents` as an ACTS model: `None` when the text does not
/// look like one; otherwise the request with the asked strength.
pub fn try_parse_acts(contents: &str, strength: u8) -> (r: Option<RequestedCA>)
    ensures
        r matches Some(req) ==> req@.req_wf(strength),
{
    let n = contents.unicode_len();
    let mut names: Vec<String> = Vec::new();
    let mut values: Vec<Vec<String>> = Vec::new();
    let mut sizes: Vec<u16> = Vec::new();
    // 0 = before any section, 1 = system, 2 = parameters, 3 = ignored section
    let mut section: u8 = 0;
    let mut seen_system = false;
    let mut pos: usize = 0;
    loop
        invariant
            pos <= n,
            n == contents@.len(),
            names@.len() == sizes@.len(),
            values@.len() == sizes@.len(),
            forall|i: int|
                0 <= i < sizes@.len() ==> #[trigger] values@[i]@.len() == sizes@[i],
            forall|i: int| 0 <= i < sizes@.len() ==> #[trigger] sizes@[i] > 0,
        decreases n - pos + 1,
    {
        if pos > n {
            break ;
        }
        let line_end = match find_char(contents, pos, n, '\n') {
            Some(p) => p,
            None => n,
        };
        let t = trim_range(contents, pos, line_end);
        let a = t.0;
        let b = t.1;
        if a < b {
            if contents.get_char(a) == '[' {
                if range_is(contents, a, b, "[System]") {
                    section = 1;
                    seen_system = true;
                } else if range_is(contents, a, b, "[Parameter]") {
                    section = 2;
                } else if range_is(contents, a, b, "[Constraint]") || range_is(
                    contents,
                    a,
                    b,
                    "[Test Set]",
                ) || range_is(contents, a, b, "[Relation]") {
                    section = 3;
                } else {
                    return None;
                }
            } else if section == 0 {
                return None;
            } else if section == 2 {
                let colon = match find_char(contents, a, b, ':') {
                    Some(p) => p,
                    None => {
                        return None;
                    },
                };
                let name_end = match find_char(contents, a, colon, '(') {
                    Some(p) => p,
                    None => colon,
                };
                let nt = trim_range(contents, a, name_end);
                if nt.0 >= nt.1 {
                    return None;
                }
                let vals = match split_values(contents, colon + 1, b) {
                    Some(v) => v,
                    None => {
                        return None;
                    },
                };
                names.push(token(contents, nt.0, nt.1));
                sizes.push(vals.len() as u16);
                values.push(vals);
            }
        }
        if line_end >= n {
            break ;
        }
        pos = line_end + 1;
    }
    if !seen_system {
        return None;
    }
    Some(build_request(names, values, sizes, strength))
}

} // verus!
