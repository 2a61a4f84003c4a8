use ficus_backend::petri_net::{IdGenerator, PetriNet, Place, Transition};
use ficus_backend::pnml::{pnml_events, serialize_to_pnml, write_xml, XmlEvent};

fn small_net() -> PetriNet {
    let mut ids = IdGenerator::new();
    let mut net = PetriNet::empty();
    let p = net.add_place(Place::with_name("p1".to_string(), &mut ids));
    let q = net.add_place(Place::with_name("a0".to_string(), &mut ids));
    let t = net.add_transition(Transition::empty("t".to_string(), Some("data".to_string()), &mut ids));
    net.connect_place_to_transition(p, t, &mut ids);
    net.connect_transition_to_place(t, q, &mut ids);
    net
}

fn start(name: &str, attrs: &[(&str, &str)]) -> String {
    let attrs: Vec<String> = attrs.iter().map(|(k, v)| format!("{}={}", k, v)).collect();
    format!("<{} {}>", name, attrs.join(" "))
}

fn describe(events: &[XmlEvent]) -> Vec<String> {
    events
        .iter()
        .map(|e| match e {
            XmlEvent::Start(name, attrs) => {
                let attrs: Vec<(&str, &str)> = attrs.iter().map(|(k, v)| (k.as_str(), v.as_str())).collect();
                start(name, &attrs)
            }
            XmlEvent::End(name) => format!("</{}>", name),
            XmlEvent::Text(text) => text.clone(),
        })
        .collect()
}

#[test]
fn pnml_events_by_identifier() {
    let events = pnml_events(&small_net(), false);
    let expected = vec![
        start("pnml", &[]),
        start("net", &[]),
        start("place", &[("id", "1")]),
        "</place>".to_string(),
        start("place", &[("id", "0")]),
        "</place>".to_string(),
        start("transition", &[("id", "2")]),
        start("name", &[]),
        start("text", &[]),
        "data".to_string(),
        "</text>".to_string(),
        "</name>".to_string(),
        "</transition>".to_string(),
        start("arc", &[("id", "3"), ("source", "0"), ("target", "2")]),
        "</arc>".to_string(),
        start("arc", &[("id", "4"), ("target", "1"), ("source", "2")]),
        "</arc>".to_string(),
        "</net>".to_string(),
        "</pnml>".to_string(),
    ];
    assert_eq!(describe(&events), expected);
}

#[test]
fn pnml_text_by_name() {
    let text = serialize_to_pnml(&small_net(), true).ok().unwrap();
    let expected = "<pnml>\n  <net>\n    <place id=\"a0\">\n    </place>\n    <place id=\"p1\">\n    </place>\n    <transition id=\"t\">\n      <name>\n        <text>data</text>\n      </name>\n    </transition>\n    <arc id=\"[{p1}--{t}]\" source=\"p1\" target=\"t\">\n    </arc>\n    <arc id=\"[{t}--{a0}]\" target=\"a0\" source=\"t\">\n    </arc>\n  </net>\n</pnml>";
    assert_eq!(text, expected);
}

#[test]
fn xml_text_is_escaped() {
    let events = vec![
        XmlEvent::Start("a".to_string(), vec![("k".to_string(), "x<y".to_string())]),
        XmlEvent::Text("1 & 2".to_string()),
        XmlEvent::End("a".to_string()),
    ];
    let text = write_xml(&events).ok().unwrap();
    assert_eq!(text, "<a k=\"x&lt;y\">1 &amp; 2</a>");
}
