use bibbo::graph::{edges_from_keys, link_edges, note_keys, NoteKeys, NoteText};

fn note(id: i64, title: &str, body: &str) -> NoteText {
    NoteText { id, title: title.to_string(), body: body.to_string() }
}

fn reference_norm(s: &str) -> String {
    s.split_whitespace().collect::<Vec<_>>().join(" ").to_lowercase()
}

fn reference_links(body: &str) -> Vec<String> {
    let mut links = Vec::new();
    let mut rest = body;
    while let Some(s) = rest.find("[[") {
        rest = &rest[s + 2..];
        if let Some(e) = rest.find("]]") {
            links.push(rest[..e].trim().to_string());
            rest = &rest[e + 2..];
        } else {
            break;
        }
    }
    links
}

/// The edge scan written directly with iterators, keeping each pair once.
fn reference_edges(notes: &[NoteText]) -> Vec<(i64, i64)> {
    let mut out: Vec<(i64, i64)> = Vec::new();
    for n in notes {
        for tag in reference_links(&n.body) {
            let tn = reference_norm(&tag);
            if let Some(t) = notes.iter().find(|m| m.id != n.id && reference_norm(&m.title) == tn) {
                if !out.contains(&(n.id, t.id)) {
                    out.push((n.id, t.id));
                }
            }
        }
    }
    out
}

fn sample() -> Vec<NoteText> {
    vec![
        note(1, "Machine Learning", "Core ideas: [[Neural Networks]], [[Training Data]], [[Gradient Descent]]."),
        note(2, "Neural Networks", "Built on [[Backpropagation]]. The backbone of [[Deep Learning]]. See [[neural   networks]]."),
        note(3, "Deep Learning", "Neural networks with many layers. Needs [[training data]] and more [[Training Data]]."),
        note(4, "Training Data", "Used by [[Machine Learning]] models; see [[Missing Note]]."),
        note(5, "Backpropagation", "Uses the [[Chain Rule]] [[unclosed"),
        note(6, "  Training   Data ", "A second note with the same title after normalising."),
        note(7, "Chain Rule", "From [[Calculus]]. [[ MACHINE LEARNING ]]"),
    ]
}

#[test]
fn edges_match_reference_scan() {
    let notes = sample();
    let got = link_edges(&notes);
    assert_eq!(got, reference_edges(&notes));
    assert_eq!(got, vec![(1, 2), (1, 4), (2, 5), (2, 3), (3, 4), (4, 1), (5, 7), (7, 1)]);
}

#[test]
fn no_self_loops_and_no_repeats() {
    let notes = sample();
    let got = link_edges(&notes);
    for (i, e) in got.iter().enumerate() {
        assert_ne!(e.0, e.1);
        assert!(!got[i + 1..].contains(e));
    }
}

#[test]
fn note_keys_normalise_title_and_links() {
    let k = note_keys(&note(9, "  Big   TITLE ", "x [[ Foo  Bar ]] y [[BAZ]]"));
    assert_eq!(k.id, 9);
    assert_eq!(k.title_key, "big title");
    assert_eq!(k.link_keys, vec!["foo bar".to_string(), "baz".to_string()]);
}

#[test]
fn edges_from_given_keys() {
    let keys = vec![
        NoteKeys { id: 1, title_key: "a".to_string(), link_keys: vec!["b".to_string(), "a".to_string(), "b".to_string()] },
        NoteKeys { id: 2, title_key: "b".to_string(), link_keys: vec!["a".to_string(), "c".to_string()] },
        NoteKeys { id: 3, title_key: "b".to_string(), link_keys: vec!["b".to_string()] },
    ];
    assert_eq!(edges_from_keys(&keys), vec![(1, 2), (2, 1), (3, 2)]);
}

#[test]
fn empty_inputs() {
    assert!(link_edges(&Vec::new()).is_empty());
    assert!(link_edges(&vec![note(1, "Alone", "[[Alone]]")]).is_empty());
}
