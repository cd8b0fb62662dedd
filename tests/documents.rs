use scheduler_benchmark::graph::Dependency;
use scheduler_benchmark::workflow::{read_workflow, task_document, topology_document, ParseError};
use scheduler_benchmark::xml::parse_xml;

const WORKFLOW: &str = r#"<adag>
  <job id="a" runtime="1.5">
    <uses link="input" size="100"/>
    <uses link="output" size="7"/>
  </job>
  <job id="b" runtime="2.25">
    <uses link="input" size="40"/>
    <uses link="input" size="60"/>
  </job>
  <job id="c" runtime="3">
    <uses link="input" size="5"/>
  </job>
  <child ref="b">
    <parent ref="a"/>
    <parent ref="c"/>
  </child>
</adag>"#;

fn task_error(xml: &str) -> ParseError {
    let nodes = parse_xml(xml).unwrap();
    task_document(&nodes).unwrap_err()
}

#[test]
fn task_document_sums_inputs_and_pairs_parents() {
    let nodes = parse_xml(WORKFLOW).unwrap();
    let doc = task_document(&nodes).unwrap();
    let sizes: Vec<u64> = doc.tasks.iter().map(|t| t.data_size).collect();
    assert_eq!(sizes, vec![100, 100, 5]);
    let runtimes: Vec<&str> = doc.tasks.iter().map(|t| t.runtime.as_str()).collect();
    assert_eq!(runtimes, vec!["1.5", "2.25", "3"]);
    assert_eq!(
        doc.dependencies,
        vec![
            Dependency { source: 0, target: 1, data_size: 40 },
            Dependency { source: 2, target: 1, data_size: 60 },
        ]
    );
}

#[test]
fn topology_document_keeps_texts() {
    let nodes = parse_xml(WORKFLOW).unwrap();
    let doc = topology_document(&nodes).unwrap();
    assert_eq!(doc.devices, vec!["1.5".to_string(), "2.25".to_string(), "3".to_string()]);
    assert_eq!(doc.links.len(), 2);
    assert_eq!((doc.links[0].parent, doc.links[0].child, doc.links[0].size.as_str()), (0, 1, "40"));
    assert_eq!((doc.links[1].parent, doc.links[1].child, doc.links[1].size.as_str()), (2, 1, "60"));
}

#[test]
fn malformed_xml_is_refused() {
    assert!(parse_xml("<adag><job></adag>").is_none());
}

#[test]
fn parent_count_must_match_inputs() {
    let xml = r#"<adag><job id="a" runtime="1"/><job id="b" runtime="1"><uses link="input" size="3"/></job>
        <child ref="b"><parent ref="a"/><parent ref="a"/></child></adag>"#;
    assert_eq!(task_error(xml), ParseError::CountMismatch);
}

#[test]
fn unknown_ref_is_refused() {
    let xml = r#"<adag><job id="a" runtime="1"><uses link="input" size="3"/></job>
        <child ref="a"><parent ref="z"/></child></adag>"#;
    assert_eq!(task_error(xml), ParseError::UnknownRef);
    let xml = r#"<adag><child ref="a"/></adag>"#;
    assert_eq!(task_error(xml), ParseError::UnknownRef);
}

#[test]
fn unexpected_tags_are_refused() {
    assert_eq!(task_error(r#"<adag><task id="a" runtime="1"/></adag>"#), ParseError::UnexpectedTag);
    assert_eq!(
        task_error(r#"<adag><job id="a" runtime="1"><file/></job></adag>"#),
        ParseError::UnexpectedTag
    );
}

#[test]
fn missing_attributes_are_refused() {
    assert_eq!(task_error(r#"<adag><job runtime="1"/></adag>"#), ParseError::MissingAttribute);
    assert_eq!(
        task_error(r#"<adag><job id="a" runtime="1"><uses link="input"/></job></adag>"#),
        ParseError::MissingAttribute
    );
}

#[test]
fn bad_sizes_are_refused() {
    assert_eq!(
        task_error(r#"<adag><job id="a" runtime="1"><uses link="output" size="x"/></job></adag>"#),
        ParseError::BadNumber
    );
    let xml = r#"<adag><job id="a" runtime="1"><uses link="input" size="18446744073709551615"/>
        <uses link="input" size="1"/></job></adag>"#;
    assert_eq!(task_error(xml), ParseError::BadNumber);
    let nodes = parse_xml(xml).unwrap();
    assert!(read_workflow(&nodes).is_ok());
    assert!(topology_document(&nodes).is_ok());
}
