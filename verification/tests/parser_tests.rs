use ca2::CA2Version;
use ca2::parse_request;
use ca2::try_parse_acts;
use ca2::try_parse_ctwedge;

const ACTS_MODEL: &str = "[System]\n\
Name: web\n\
[Parameter]\n\
browser (enum) : firefox, chrome, safari\n\
os : linux, mac\n\
[Constraint]\n\
browser != safari || os = mac\n";

const CTWEDGE_MODEL: &str = "Model web\n\
Parameters:\n\
  browser : { firefox, chrome, safari }\n\
  secure : Boolean\n\
Constraints:\n\
  # browser != safari #\n";

#[test]
fn acts_models_are_read() {
    let req = try_parse_acts(ACTS_MODEL, 2).unwrap();
    assert_eq!(req.parameter_names, vec!["browser", "os"]);
    assert_eq!(req.parameter_sizes, vec![3, 2]);
    assert_eq!(req.parameter_values[0], vec!["firefox", "chrome", "safari"]);
    assert_eq!(req.parameter_values[1], vec!["linux", "mac"]);
    assert_eq!(req.ca_spec.t, 2);
    assert_eq!(req.ca_spec.n, 0);
    assert_eq!(req.ca_spec.vs, vec![3, 2]);
    assert_eq!(req.ca_spec.version, CA2Version::Bzip2);
}

#[test]
fn ctwedge_models_are_read() {
    let req = try_parse_ctwedge(CTWEDGE_MODEL, 3).unwrap();
    assert_eq!(req.parameter_names, vec!["browser", "secure"]);
    assert_eq!(req.parameter_sizes, vec![3, 2]);
    assert_eq!(req.parameter_values[1], vec!["true", "false"]);
    assert_eq!(req.ca_spec.t, 3);
    assert_eq!(req.ca_spec.vs, vec![3, 2]);
}

#[test]
fn each_reader_declines_the_other_format() {
    assert!(try_parse_acts(CTWEDGE_MODEL, 2).is_none());
    assert!(try_parse_ctwedge(ACTS_MODEL, 2).is_none());
}

#[test]
fn the_dispatcher_tries_both_formats() {
    assert!(parse_request(ACTS_MODEL, 2).is_some());
    assert!(parse_request(CTWEDGE_MODEL, 2).is_some());
    assert!(parse_request("not a model at all", 2).is_none());
}

#[test]
fn ranges_are_not_supported() {
    let model = "Model m\nParameters:\n n : [1 .. 9]\n";
    assert!(try_parse_ctwedge(model, 2).is_none());
}

#[test]
fn blank_values_are_malformed() {
    let model = "[System]\nName: x\n[Parameter]\np : a,,b\n";
    assert!(try_parse_acts(model, 2).is_none());
}
