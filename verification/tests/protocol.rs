use record_stream::batch::JsonLdQuadSource;
use record_stream::callback::Callback;
use record_stream::collect::{Collector, CollectorFull};
use record_stream::map::{FnMap, Identity, MapSource};
use record_stream::memory::Replay;
use record_stream::stream::{try_for_each_item, Source, StreamError};
use std::collections::VecDeque;

fn replay(items: Vec<u32>, burst: usize, failure: Option<&str>) -> Replay<u32, String> {
    Replay {
        items: VecDeque::from(items),
        burst,
        failure: failure.map(|text| text.to_string()),
    }
}

fn batch(items: Vec<u32>) -> JsonLdQuadSource<u32, String> {
    JsonLdQuadSource::Quads(VecDeque::from(items))
}

fn pull_all<S: Source<Item = u32, Error = String>>(source: S) -> Vec<Result<u32, String>> {
    let mut it = MapSource::new(source, FnMap::new(|x: u32| x * 10 + 1)).into_iter();
    let mut out = vec![];
    while let Some(item) = it.next() {
        out.push(item);
    }
    assert!(it.next().is_none());
    out
}

#[test]
fn map_pushes_each_image_in_order() {
    let mut mapped = MapSource::new(batch(vec![3, 1, 2]), FnMap::new(|x: u32| x * 10 + 1));
    let (sink, res) = try_for_each_item(&mut mapped, Collector::new());
    assert!(res.is_ok());
    assert_eq!(sink.into_items(), vec![31, 11, 21]);
}

#[test]
fn map_push_and_pull_agree() {
    let mut mapped = MapSource::new(replay(vec![3, 1, 2, 9], 3, None), FnMap::new(|x: u32| x * 10 + 1));
    let (sink, res) = try_for_each_item(&mut mapped, Collector::new());
    assert!(res.is_ok());
    let pushed = sink.into_items();
    let pulled: Vec<u32> = pull_all(replay(vec![3, 1, 2, 9], 3, None))
        .into_iter()
        .map(|r| r.unwrap())
        .collect();
    assert_eq!(pushed, vec![31, 11, 21, 91]);
    assert_eq!(pulled, pushed);
}

#[test]
fn map_identity_reproduces_the_records() {
    let mut mapped = MapSource::new(batch(vec![5, 5, 4, 7]), Identity);
    let (sink, res) = try_for_each_item(&mut mapped, Collector::new());
    assert!(res.is_ok());
    assert_eq!(sink.into_items(), vec![5, 5, 4, 7]);
    let mut it = MapSource::new(batch(vec![5, 5, 4, 7]), Identity).into_iter();
    assert_eq!(it.next(), Some(Ok(5)));
    assert_eq!(it.next(), Some(Ok(5)));
    assert_eq!(it.next(), Some(Ok(4)));
    assert_eq!(it.next(), Some(Ok(7)));
    assert_eq!(it.next(), None);
}

#[test]
fn map_keeps_the_size_hint() {
    let inner = replay(vec![1, 2, 3], 1, None);
    assert_eq!(inner.size_hint_items(), (3, Some(3)));
    let mapped = MapSource::new(inner, FnMap::new(|x: u32| x + 1));
    assert_eq!(mapped.size_hint_items(), (3, Some(3)));
    let it = mapped.into_iter();
    assert_eq!(it.size_hint(), (3, Some(3)));
    let parsed = MapSource::new(batch(vec![1, 2, 3]), Identity);
    assert_eq!(batch(vec![1, 2, 3]).size_hint_items(), (0, None));
    assert_eq!(parsed.size_hint_items(), (0, None));
}

#[test]
fn producer_error_after_two_records_when_pushed() {
    let mut source = replay(vec![7, 8], 1, Some("broken input"));
    let (sink, res) = try_for_each_item(&mut source, Collector::new());
    assert_eq!(sink.into_items(), vec![7, 8]);
    match res {
        Err(StreamError::SourceError(e)) => assert_eq!(e, "broken input"),
        _ => panic!("expected the producer's error"),
    }
    let (sink, res) = source.try_for_some_item(Collector::new());
    assert!(matches!(res, Ok(false)));
    assert!(sink.into_items().is_empty());
}

#[test]
fn producer_error_after_two_records_when_pulled() {
    let out = pull_all(replay(vec![7, 8], 5, Some("broken input")));
    assert_eq!(out, vec![Ok(71), Ok(81), Err("broken input".to_string())]);
}

#[test]
fn consumer_error_at_the_second_record() {
    let mut source = replay(vec![7, 8, 9, 10], 1, None);
    let (sink, res) = try_for_each_item(&mut source, Collector::bounded(1));
    assert_eq!(sink.into_items(), vec![7]);
    assert!(matches!(res, Err(StreamError::SinkError(CollectorFull))));
    let left: Vec<u32> = source.items.into_iter().collect();
    assert_eq!(left, vec![9, 10]);
}

#[test]
fn consumer_error_stops_a_burst() {
    let mut source = replay(vec![7, 8, 9, 10], 4, None);
    let (sink, res) = source.try_for_some_item(Collector::bounded(2));
    assert_eq!(sink.into_items(), vec![7, 8]);
    assert!(matches!(res, Err(StreamError::SinkError(CollectorFull))));
    let left: Vec<u32> = source.items.into_iter().collect();
    assert_eq!(left, vec![10]);
}

#[test]
fn consumer_error_through_a_map() {
    let mut mapped = MapSource::new(batch(vec![1, 2, 3]), FnMap::new(|x: u32| x * 2));
    let (sink, res) = try_for_each_item(&mut mapped, Collector::bounded(2));
    assert_eq!(sink.into_items(), vec![2, 4]);
    assert!(matches!(res, Err(StreamError::SinkError(CollectorFull))));
}

#[test]
fn collector_without_room_takes_nothing() {
    let mut source = batch(vec![1]);
    let (sink, res) = try_for_each_item(&mut source, Collector::bounded(0));
    assert!(sink.into_items().is_empty());
    assert!(matches!(res, Err(StreamError::SinkError(CollectorFull))));
}

#[test]
fn carried_error_comes_first_and_once() {
    let mut source: JsonLdQuadSource<u32, String> = JsonLdQuadSource::from_err("no parse".to_string());
    let (sink, res) = source.try_for_some_item(Collector::new());
    match res {
        Err(StreamError::SourceError(e)) => assert_eq!(e, "no parse"),
        _ => panic!("expected the carried error"),
    }
    let (sink, res) = source.try_for_some_item(sink);
    assert!(matches!(res, Ok(false)));
    let (sink, res) = source.try_for_some_item(sink);
    assert!(matches!(res, Ok(false)));
    assert!(sink.into_items().is_empty());
    assert!(matches!(source, JsonLdQuadSource::Failed(None)));
}

#[test]
fn carried_error_when_driven_and_when_pulled() {
    let mut source: JsonLdQuadSource<u32, String> = JsonLdQuadSource::from_err("no parse".to_string());
    let (sink, res) = try_for_each_item(&mut source, Collector::new());
    assert!(sink.into_items().is_empty());
    assert!(matches!(res, Err(StreamError::SourceError(_))));
    let out = pull_all(JsonLdQuadSource::from_err("no parse".to_string()));
    assert_eq!(out, vec![Err("no parse".to_string())]);
}

#[test]
fn parsed_quads_come_one_at_a_poll() {
    let mut source = batch(vec![4, 5]);
    let (sink, res) = source.try_for_some_item(Collector::new());
    assert!(matches!(res, Ok(true)));
    let (sink, res) = source.try_for_some_item(sink);
    assert!(matches!(res, Ok(true)));
    let (sink, res) = source.try_for_some_item(sink);
    assert!(matches!(res, Ok(false)));
    assert_eq!(sink.into_items(), vec![4, 5]);
}

#[test]
fn empty_stream_is_exhausted_at_once() {
    let mut source = batch(vec![]);
    let (sink, res) = try_for_each_item(&mut source, Collector::new());
    assert!(res.is_ok());
    assert!(sink.into_items().is_empty());
    assert_eq!(pull_all(batch(vec![])), vec![]);
}

#[test]
fn bridge_keeps_the_rest_of_a_burst() {
    let mapped = MapSource::new(replay(vec![1, 2, 3], 2, None), FnMap::new(|x: u32| x + 100));
    let mut it = mapped.into_iter();
    assert_eq!(it.size_hint(), (3, Some(3)));
    assert_eq!(it.next(), Some(Ok(101)));
    assert_eq!(it.size_hint(), (1, Some(1)));
    assert_eq!(it.next(), Some(Ok(102)));
    assert_eq!(it.size_hint(), (1, Some(1)));
    assert_eq!(it.next(), Some(Ok(103)));
    assert_eq!(it.size_hint(), (0, Some(0)));
    assert_eq!(it.next(), None);
    assert_eq!(it.next(), None);
}

#[test]
fn bridge_ends_for_good_after_an_error() {
    let mapped = MapSource::new(replay(vec![1], 1, Some("late")), Identity);
    let mut it = mapped.into_iter();
    assert_eq!(it.next(), Some(Ok(1)));
    assert_eq!(it.next(), Some(Err("late".to_string())));
    assert_eq!(it.next(), None);
    assert_eq!(it.next(), None);
}

#[test]
fn replay_delivers_a_burst_at_a_poll() {
    let mut source = replay(vec![1, 2, 3, 4, 5], 2, Some("end"));
    let (sink, res) = source.try_for_some_item(Collector::new());
    assert!(matches!(res, Ok(true)));
    assert_eq!(sink.into_items(), vec![1, 2]);
    let (sink, res) = source.try_for_some_item(Collector::new());
    assert!(matches!(res, Ok(true)));
    assert_eq!(sink.into_items(), vec![3, 4]);
    let (sink, res) = source.try_for_some_item(Collector::new());
    assert!(matches!(res, Ok(true)));
    assert_eq!(sink.into_items(), vec![5]);
    let (_, res) = source.try_for_some_item(Collector::<u32>::new());
    assert!(matches!(res, Err(StreamError::SourceError(_))));
    let (_, res) = source.try_for_some_item(Collector::<u32>::new());
    assert!(matches!(res, Ok(false)));
}

#[test]
fn nested_maps_compose() {
    let inner = MapSource::new(batch(vec![1, 2, 3]), FnMap::new(|x: u32| x + 1));
    let mut outer = MapSource::new(inner, FnMap::new(|x: u32| x.to_string()));
    let (sink, res) = try_for_each_item(&mut outer, Collector::new());
    assert!(res.is_ok());
    assert_eq!(sink.into_items(), vec!["2".to_string(), "3".to_string(), "4".to_string()]);
}

#[test]
fn callback_receives_each_record_until_it_fails() {
    let mut seen: Vec<u32> = vec![];
    let mut source = replay(vec![7, 8, 9, 10], 3, None);
    let (_, res) = try_for_each_item(
        &mut source,
        Callback::new(|x: u32| {
            if x == 9 {
                Err("nine".to_string())
            } else {
                seen.push(x);
                Ok(())
            }
        }),
    );
    match res {
        Err(StreamError::SinkError(e)) => assert_eq!(e, "nine"),
        _ => panic!("expected the callback's error"),
    }
    assert_eq!(seen, vec![7, 8]);
    let left: Vec<u32> = source.items.into_iter().collect();
    assert_eq!(left, vec![10]);
}
