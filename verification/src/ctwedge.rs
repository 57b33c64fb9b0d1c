//! Hand-written reader for the CTWedge parameter-model format: a `Model`
//! header, a `Parameters:` section with `name : { value, value }` or
//! `name : Boolean` lines, and an optional `Constraints:` section, which is
//! ignored. Range notations are not supported and make the reader decline.
//! The grammar is a collaborator interface; the contract pins the shape of
//! the parsed request, not the grammar.

use vstd::prelude::*;
use vstd::string::StrSliceExecFns;
use crate::caspec::{build_request, RequestedCA};
use crate::text::{find_char, range_is, split_values, token, trim_range};

verus! {

/// Tries to read `contents` as a CTWedge model: `None` when the text does
/// not look like one; otherwise the request with the asked strength.
pub fn try_parse_ctwedge(contents: &str, strength: u8) -> (r: Option<RequestedCA>)
    ensures
        r matches Some(req) ==> req@.req_wf(strength),
{
    let n = contents.unicode_len();
    let mut names: Vec<String> = Vec::new();
    let mut values: Vec<Vec<String>> = Vec::new();
    let mut sizes: Vec<u16> = Vec::new();
    // 0 = expecting the model header, 1 = expecting `Parameters:`,
    // 2 = parameter lines, 3 = constraints (ignored)
    let mut state: u8 = 0;
    let mut pos: usize = 0;
    loop
        invariant
            pos <= n,
            n == contents@.len(),
            names@.len() == sizes@.len(),
            values@.len() == sizes@.len(),
            forall|i: int|
                0 <= i < sizes@.len() ==> #[trigger] values@[i]@.len() == sizes@[i],
            forall|i: int| 0 <= i < sizes@.len() ==> #[trigger] sizes@[i] > 0,
        decreases n - pos + 1,
    {
        if pos > n {
            break ;
        }
        let line_end = match find_char(contents, pos, n, '\n') {
            Some(p) => p,
            None => n,
        };
        let t = trim_range(contents, pos, line_end);
        let a = t.0;
        let b = t.1;
        if a < b {
            if state == 0 {
                if b - a < 5 || !range_is(contents, a, a + 5, "Model") {
                    return None;
                }
                state = 1;
            } else if state == 1 {
                if !range_is(contents, a, b, "Parameters:") {
                    return None;
                }
                state = 2;
            } else if state == 2 {
                if range_is(contents, a, b, "Constraints:") {
                    state = 3;
                } else {
                    let colon = match find_char(contents, a, b, ':') {
                        Some(p) => p,
                        None => {
                            return None;
                        },
                    };
                    let nt = trim_range(contents, a, colon);
                    if nt.0 >= nt.1 {
                        return None;
                    }
                    let vt = trim_range(contents, colon + 1, b);
                    if vt.0 >= vt.1 {
                        return None;
                    }
                    let vals: Vec<String> = if contents.get_char(vt.0) == '{' {
                        if contents.get_char(vt.1 - 1) != '}' || vt.1 - 1 <= vt.0 {
                            return None;
                        }
                        match split_values(contents, vt.0 + 1, vt.1 - 1) {
                            Some(v) => v,
                            None => {
                                return None;
                            },
                        }
                    } else if range_is(contents, vt.0, vt.1, "Boolean") {
                        let mut v: Vec<String> = Vec::new();
                        v.push("true".to_owned());
                        v.push("false".to_owned());
                        v
                    } else {
                        // unsupported notation, e.g. a numeric range
                        return None;
                    };
                    names.push(token(contents, nt.0, nt.1));
                    sizes.push(vals.len() as u16);
                    values.push(vals);
                }
            }
        }
        if line_end >= n {
            break ;
        }
        pos = line_end + 1;
    }
    if state == 0 {
        return None;
    }
    Some(build_request(names, values, sizes, strength))
}

} // verus!
