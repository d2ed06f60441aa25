use record_stream::batch::JsonLdQuadSource;
use record_stream::callback::Callback;
use record_stream::map::{FnMap, MapSource};
use record_stream::stream::try_for_each_item;
use std::collections::VecDeque;
use std::convert::Infallible;

#[derive(Clone, Debug, PartialEq)]
enum Term {
    Iri(String),
}

impl Term {
    fn iri(&self) -> Option<&str> {
        match self {
            Term::Iri(text) => Some(text),
        }
    }
}

fn ez_term(txt: &str) -> Term {
    match txt.strip_prefix(':') {
        Some(local) => Term::Iri(format!("tag:{}", local)),
        None => panic!("unsupported shorthand"),
    }
}

type Triple = record_stream::record::Triple<Term>;
type Quad = record_stream::record::Spog<Term>;

fn triples() -> JsonLdQuadSource<Triple, String> {
    JsonLdQuadSource::Quads(VecDeque::from(vec![
        [ez_term(":a"), ez_term(":b"), ez_term(":c")],
        [ez_term(":d"), ez_term(":e"), ez_term(":f")],
        [ez_term(":g"), ez_term(":h"), ez_term(":i")],
    ]))
}

fn quads() -> JsonLdQuadSource<Quad, String> {
    JsonLdQuadSource::Quads(VecDeque::from(vec![
        ([ez_term(":a"), ez_term(":b"), ez_term(":c")], None),
        ([ez_term(":d"), ez_term(":e"), ez_term(":f")], None),
        ([ez_term(":g"), ez_term(":h"), ez_term(":i")], None),
    ]))
}

#[test]
fn ts_map_to_triples() {
    let mut mapped = MapSource::new(
        triples(),
        FnMap::new(|t: Triple| {
            let [s, p, o] = t;
            [o, p, s]
        }),
    );
    let mut h: Vec<Triple> = vec![];
    let (_, res) = try_for_each_item(
        &mut mapped,
        Callback::new(|t: Triple| -> Result<(), Infallible> {
            h.push(t);
            Ok(())
        }),
    );
    res.unwrap();
    assert_eq!(
        h,
        vec![
            [ez_term(":c"), ez_term(":b"), ez_term(":a")],
            [ez_term(":f"), ez_term(":e"), ez_term(":d")],
            [ez_term(":i"), ez_term(":h"), ez_term(":g")],
        ]
    )
}

#[test]
fn ts_map_to_quads() {
    let mut mapped = MapSource::new(
        triples(),
        FnMap::new(|t: Triple| {
            let [s, p, o] = t;
            ([o, p, s], None)
        }),
    );
    let mut h: Vec<Quad> = vec![];
    let (_, res) = try_for_each_item(
        &mut mapped,
        Callback::new(|t: Quad| -> Result<(), Infallible> {
            h.push(t);
            Ok(())
        }),
    );
    res.unwrap();
    assert_eq!(
        h,
        vec![
            ([ez_term(":c"), ez_term(":b"), ez_term(":a")], None),
            ([ez_term(":f"), ez_term(":e"), ez_term(":d")], None),
            ([ez_term(":i"), ez_term(":h"), ez_term(":g")], None),
        ]
    )
}

#[test]
fn ts_map_iter() {
    let mut it = MapSource::new(
        triples(),
        FnMap::new(|t: Triple| t[0].iri().unwrap().to_string()),
    ).into_iter();
    let mut pulled: Vec<Result<String, String>> = vec![];
    while let Some(item) = it.next() {
        pulled.push(item);
    }
    let h: Result<Vec<String>, String> = pulled.into_iter().collect();
    assert_eq!(
        h.unwrap(),
        vec![
            "tag:a".to_string(),
            "tag:d".to_string(),
            "tag:g".to_string(),
        ]
    )
}

#[test]
fn qs_map_to_triples() {
    let mut mapped = MapSource::new(
        quads(),
        FnMap::new(|q: Quad| {
            let ([s, p, o], _) = q;
            [o, p, s]
        }),
    );
    let mut h: Vec<Triple> = vec![];
    let (_, res) = try_for_each_item(
        &mut mapped,
        Callback::new(|t: Triple| -> Result<(), Infallible> {
            h.push(t);
            Ok(())
        }),
    );
    res.unwrap();
    assert_eq!(
        h,
        vec![
            [ez_term(":c"), ez_term(":b"), ez_term(":a")],
            [ez_term(":f"), ez_term(":e"), ez_term(":d")],
            [ez_term(":i"), ez_term(":h"), ez_term(":g")],
        ]
    )
}

#[test]
fn qs_map_to_quads() {
    let mut mapped = MapSource::new(
        quads(),
        FnMap::new(|q: Quad| {
            let ([s, p, o], g) = q;
            ([o, p, s], g)
        }),
    );
    let mut h: Vec<Quad> = vec![];
    let (_, res) = try_for_each_item(
        &mut mapped,
        Callback::new(|t: Quad| -> Result<(), Infallible> {
            h.push(t);
            Ok(())
        }),
    );
    res.unwrap();
    assert_eq!(
        h,
        vec![
            ([ez_term(":c"), ez_term(":b"), ez_term(":a")], None),
            ([ez_term(":f"), ez_term(":e"), ez_term(":d")], None),
            ([ez_term(":i"), ez_term(":h"), ez_term(":g")], None),
        ]
    )
}

#[test]
fn qs_map_iter() {
    let mut it = MapSource::new(
        quads(),
        FnMap::new(|q: Quad| q.0[0].iri().unwrap().to_string()),
    ).into_iter();
    let mut pulled: Vec<Result<String, String>> = vec![];
    while let Some(item) = it.next() {
        pulled.push(item);
    }
    let h: Result<Vec<String>, String> = pulled.into_iter().collect();
    assert_eq!(
        h.unwrap(),
        vec![
            "tag:a".to_string(),
            "tag:d".to_string(),
            "tag:g".to_string(),
        ]
    )
}
