use acestream_audio::encoder::{Delivery, Subscription};
use acestream_audio::format::OutputFormat;
use acestream_audio::join::{Join, JoinAction, JoinEvent, Stage};
use acestream_audio::pull::{now_pid, Pull, PullAction, PullEvent, CHUNK, PREROLL, RETRY, TS_STALL};
use acestream_audio::queue::Received;
use acestream_audio::registry::{Config, Registry};
use acestream_audio::stream::Probe;
use bytes::Bytes;
use serde_json::Value;

const ID: &str = "aaaaaaaaaaaaaaaaaaaaaaaaaaaaaaaaaaaaaaaa";

fn registry() -> Registry {
    Registry::new(Config { engine_host: "e:1".to_string(), frag_duration_ms: None })
}

fn handshake() -> PullEvent {
    let body = r#"{"response":{"playback_url":"http://e/play","stat_url":"http://e/stat",
        "command_url":"http://e/cmd"}}"#;
    PullEvent::Handshake(Ok(body.to_string()))
}

fn probed() -> PullEvent {
    PullEvent::Probed(Ok(Probe { video: Some("h264".to_string()), audio: Some("ac3".to_string()) }))
}

fn pull_of(serial: u64) -> Pull {
    Pull::new(serial, "e:1", ID, "proxy-1").0
}

/// Asks for a stream and runs its pull until it is up.
fn bring_up(reg: &mut Registry) -> (Join, Pull) {
    let mut join = Join::new(ID, OutputFormat::Adts, "peer");
    let serial = match reg.subscribe(&mut join, JoinEvent::Proceed, 0) {
        JoinAction::StartPuller(serial) => serial,
        other => panic!("{other:?}"),
    };
    let mut pull = pull_of(serial);
    match reg.pull(&mut pull, handshake(), 0) {
        PullAction::Open(url) => assert_eq!(url, "http://e/play"),
        other => panic!("{other:?}"),
    }
    assert!(matches!(reg.pull(&mut pull, PullEvent::Opened(Ok(200)), 0), PullAction::Read(PREROLL)));
    assert!(matches!(reg.pull(&mut pull, PullEvent::End, 0), PullAction::Probe(_)));
    assert!(matches!(reg.pull(&mut pull, probed(), 0), PullAction::Read(CHUNK)));
    (join, pull)
}

/// Takes a request from a stream that is up to a listener on a new encoder.
fn listen(reg: &mut Registry, join: &mut Join) -> (u64, u64, Subscription) {
    assert!(matches!(reg.subscribe(join, JoinEvent::Proceed, 0), JoinAction::Again));
    assert!(matches!(reg.subscribe(join, JoinEvent::Proceed, 0), JoinAction::Spawn(_)));
    assert!(matches!(
        reg.subscribe(join, JoinEvent::Spawned(Ok(())), 0),
        JoinAction::Run { id: 0, .. }
    ));
    assert!(matches!(reg.subscribe(join, JoinEvent::Proceed, 0), JoinAction::Again));
    match reg.subscribe(join, JoinEvent::Proceed, 0) {
        JoinAction::Done { serial, id, sub } => (serial, id, sub),
        other => panic!("{other:?}"),
    }
}

/// The same for a request that holds the stream already, where another encoder
/// was there before.
fn listen_again(reg: &mut Registry, join: &mut Join) -> (u64, u64, Subscription) {
    assert!(matches!(reg.subscribe(join, JoinEvent::Proceed, 0), JoinAction::Again));
    assert!(matches!(reg.subscribe(join, JoinEvent::Proceed, 0), JoinAction::Spawn(_)));
    assert!(matches!(
        reg.subscribe(join, JoinEvent::Spawned(Ok(())), 0),
        JoinAction::Run { id: 1, .. }
    ));
    assert!(matches!(reg.subscribe(join, JoinEvent::Proceed, 0), JoinAction::Again));
    match reg.subscribe(join, JoinEvent::Proceed, 0) {
        JoinAction::Done { serial, id, sub } => (serial, id, sub),
        other => panic!("{other:?}"),
    }
}

#[test]
fn player_ids_are_made_from_the_time() {
    assert_eq!(now_pid(0), "proxy-0");
    assert_eq!(now_pid(255), "proxy-ff");
    assert_eq!(now_pid(u128::MAX), "proxy-ffffffffffffffffffffffffffffffff");
}

#[test]
fn one_pull_feeds_every_listener() {
    let mut reg = registry();
    let (mut join, mut pull) = bring_up(&mut reg);
    let (serial, id, sub) = listen(&mut reg, &mut join);

    // A second listener, in the same format, costs neither a pull nor an ffmpeg.
    let mut second = Join::new(ID, OutputFormat::Adts, "second");
    assert!(matches!(reg.subscribe(&mut second, JoinEvent::Proceed, 5), JoinAction::Again));
    assert!(matches!(reg.subscribe(&mut second, JoinEvent::Proceed, 5), JoinAction::Again));
    assert!(matches!(reg.subscribe(&mut second, JoinEvent::Proceed, 5), JoinAction::Again));
    let other = match reg.subscribe(&mut second, JoinEvent::Proceed, 5) {
        JoinAction::Done { serial: s, id: i, sub } => {
            assert_eq!((s, i), (serial, id));
            sub
        }
        other => panic!("{other:?}"),
    };
    assert_eq!(reg.live_streams().len(), 1);
    assert_eq!(reg.live_streams()[0].live_encoders().len(), 1);
    assert_eq!(reg.stat_url(serial).as_deref(), Some("http://e/stat"));
    assert_eq!(reg.stat_url(serial + 1), None);

    // What comes from the engine goes to ffmpeg, and what ffmpeg writes to both.
    let chunk = Bytes::from_static(b"transport");
    assert!(matches!(reg.pull(&mut pull, PullEvent::Data(chunk), 6), PullAction::Read(CHUNK)));
    match reg.next_feed(serial, id) {
        Received::Chunk(b) => assert_eq!(&b[..], b"transport"),
        other => panic!("{other:?}"),
    }
    assert!(reg.drain_ffmpeg(serial, id, Bytes::from_static(b"sound")));
    for s in [&sub, &other] {
        match reg.read(serial, id, s, 100) {
            Delivery::Data(b) => assert_eq!(&b[..], b"sound"),
            other => panic!("{other:?}"),
        }
        assert_eq!(reg.bytes_sent(serial, id, s), 5);
    }

    // The last listener stops the encoder, and that closes the stream.
    reg.remove_listener(serial, id, sub);
    assert!(reg.has_encoder(serial, id));
    reg.remove_listener(serial, id, other);
    assert!(!reg.has_encoder(serial, id));
    assert!(!reg.has_stream(serial));
    assert!(reg.live_streams().is_empty());
    assert!(!reg.drain_ffmpeg(serial, id, Bytes::from_static(b"late")));

    // The pull notices with the next chunk, and stops the engine session.
    match reg.pull(&mut pull, PullEvent::Data(Bytes::from_static(b"more")), 7) {
        PullAction::Stop(Some(url)) => assert_eq!(url, "http://e/cmd?method=stop"),
        other => panic!("{other:?}"),
    }
    assert!(matches!(reg.pull(&mut pull, PullEvent::Tick, 8), PullAction::Ignore));
}

#[test]
fn a_new_pull_is_not_taken_for_an_old_one() {
    let mut reg = registry();
    let (mut join, mut pull) = bring_up(&mut reg);
    let (serial, id, sub) = listen(&mut reg, &mut join);
    reg.remove_listener(serial, id, sub);

    let (again, _) = bring_up(&mut reg);
    assert!(matches!(again.stage(), Stage::Starting { serial: s, .. } if s != serial));
    let before = reg.live_streams()[0].bytes_in();
    assert!(matches!(
        reg.pull(&mut pull, PullEvent::Data(Bytes::from_static(b"old")), 0),
        PullAction::Stop(_)
    ));
    assert_eq!(reg.live_streams()[0].bytes_in(), before);
}

#[test]
fn only_one_of_two_requests_starts_ffmpeg() {
    let mut reg = registry();
    let (mut first, _) = bring_up(&mut reg);
    let mut second = Join::new(ID, OutputFormat::Adts, "second");
    assert!(matches!(reg.subscribe(&mut second, JoinEvent::Proceed, 0), JoinAction::Again));
    assert!(matches!(reg.subscribe(&mut second, JoinEvent::Proceed, 0), JoinAction::Again));
    assert!(matches!(reg.subscribe(&mut first, JoinEvent::Proceed, 0), JoinAction::Again));
    assert!(matches!(reg.subscribe(&mut first, JoinEvent::Proceed, 0), JoinAction::Spawn(_)));
    assert!(matches!(reg.subscribe(&mut second, JoinEvent::Proceed, 0), JoinAction::Busy));
    assert!(matches!(reg.subscribe(&mut first, JoinEvent::Proceed, 0), JoinAction::Busy));
    assert!(matches!(reg.subscribe(&mut first, JoinEvent::Spawned(Ok(())), 0), JoinAction::Run { .. }));
    // The encoder is registered, but not joined before its starter is done.
    assert!(matches!(first.stage(), Stage::Running { id: 0, .. }));
    assert!(matches!(reg.subscribe(&mut second, JoinEvent::Proceed, 0), JoinAction::Busy));
    assert!(matches!(reg.subscribe(&mut first, JoinEvent::Proceed, 0), JoinAction::Again));
    assert!(matches!(reg.subscribe(&mut second, JoinEvent::Proceed, 0), JoinAction::Again));
    assert!(matches!(second.stage(), Stage::Joining { id: 0, .. }));
}

#[test]
fn a_failed_start_is_not_joined_but_tried_again() {
    let events: [fn(String) -> JoinEvent; 2] = [JoinEvent::FeederFailed, JoinEvent::DrainerFailed];
    for event in events {
        let mut reg = registry();
        let (mut first, _) = bring_up(&mut reg);
        let mut second = Join::new(ID, OutputFormat::Adts, "second");
        reg.subscribe(&mut second, JoinEvent::Proceed, 0);
        reg.subscribe(&mut second, JoinEvent::Proceed, 0);
        reg.subscribe(&mut first, JoinEvent::Proceed, 0);
        reg.subscribe(&mut first, JoinEvent::Proceed, 0);
        reg.subscribe(&mut first, JoinEvent::Spawned(Ok(())), 0);
        assert!(matches!(reg.subscribe(&mut second, JoinEvent::Proceed, 0), JoinAction::Busy));
        failure(reg.subscribe(&mut first, event("x".to_string()), 0));
        assert!(reg.live_streams()[0].live_encoders().is_empty());
        assert!(matches!(reg.subscribe(&mut second, JoinEvent::Proceed, 0), JoinAction::Spawn(_)));
    }
}

fn failure(action: JoinAction) -> String {
    match action {
        JoinAction::Fail(e) => e,
        other => panic!("{other:?}"),
    }
}

#[test]
fn requests_that_fail_leave_nothing_behind() {
    let mut reg = registry();
    let mut join = Join::new(ID, OutputFormat::Adts, "peer");
    reg.subscribe(&mut join, JoinEvent::Proceed, 0);
    let e = failure(reg.subscribe(&mut join, JoinEvent::PullerFailed("no thread".to_string()), 0));
    assert_eq!(e, "could not start puller: no thread");
    assert!(reg.live_streams().is_empty());
    assert_eq!(join.stage(), Stage::Over);
    assert!(matches!(reg.subscribe(&mut join, JoinEvent::Proceed, 0), JoinAction::Busy));

    let (mut join, _) = bring_up(&mut reg);
    reg.subscribe(&mut join, JoinEvent::Proceed, 0);
    reg.subscribe(&mut join, JoinEvent::Proceed, 0);
    let e = failure(reg.subscribe(&mut join, JoinEvent::Spawned(Err("missing".to_string())), 0));
    assert_eq!(e, "could not start ffmpeg: missing");
    assert!(reg.live_streams().is_empty());

    let events: [fn(String) -> JoinEvent; 2] = [JoinEvent::FeederFailed, JoinEvent::DrainerFailed];
    for (event, want) in events.iter().zip(["could not start feeder: x", "could not start drainer: x"]) {
        let (mut join, _) = bring_up(&mut reg);
        reg.subscribe(&mut join, JoinEvent::Proceed, 0);
        reg.subscribe(&mut join, JoinEvent::Proceed, 0);
        reg.subscribe(&mut join, JoinEvent::Spawned(Ok(())), 0);
        assert_eq!(reg.live_streams()[0].live_encoders().len(), 1);
        assert_eq!(failure(reg.subscribe(&mut join, event("x".to_string()), 0)), want);
        assert!(reg.live_streams().is_empty());
    }
}

#[test]
fn requests_wait_for_a_stream_only_so_long() {
    let mut reg = registry();
    let mut join = Join::new(ID, OutputFormat::Fmp4, "peer");
    assert!(matches!(reg.subscribe(&mut join, JoinEvent::Proceed, 100), JoinAction::StartPuller(0)));
    assert!(matches!(reg.subscribe(&mut join, JoinEvent::Proceed, 100), JoinAction::Wait(45_000)));
    assert!(matches!(reg.subscribe(&mut join, JoinEvent::Proceed, 45_099), JoinAction::Wait(1)));
    let e = failure(reg.subscribe(&mut join, JoinEvent::Proceed, 45_100));
    assert_eq!(e, "timed out waiting for the engine stream to start");
    assert!(reg.live_streams().is_empty());
}

#[test]
fn an_fmp4_request_waits_for_its_first_fragment() {
    let mut reg = registry();
    let (_keep, _pull) = bring_up(&mut reg);
    let mut join = Join::new(ID, OutputFormat::Fmp4, "peer");
    reg.subscribe(&mut join, JoinEvent::Proceed, 0);
    reg.subscribe(&mut join, JoinEvent::Proceed, 0);
    reg.subscribe(&mut join, JoinEvent::Proceed, 0);
    let (serial, id) = match reg.subscribe(&mut join, JoinEvent::Spawned(Ok(())), 1000) {
        JoinAction::Run { serial, id, .. } => (serial, id),
        other => panic!("{other:?}"),
    };
    // The wait begins once ffmpeg is fed and drained.
    assert!(matches!(reg.subscribe(&mut join, JoinEvent::Proceed, 1200), JoinAction::Again));
    assert!(matches!(reg.subscribe(&mut join, JoinEvent::Proceed, 1500), JoinAction::Wait(29_700)));
    let mut out = b"\0\0\0\x0cftypisom".to_vec();
    out.extend_from_slice(b"\0\0\0\x08moof");
    reg.drain_ffmpeg(serial, id, Bytes::from(out));
    let sub = match reg.subscribe(&mut join, JoinEvent::Proceed, 1600) {
        JoinAction::Done { sub, .. } => sub,
        other => panic!("{other:?}"),
    };
    match reg.read(serial, id, &sub, 100) {
        Delivery::Data(b) => assert_eq!(&b[..], b"\0\0\0\x0cftypisom"),
        other => panic!("{other:?}"),
    }
}

/// The reason that a request waiting for the stream is given after the pull got
/// the events.
fn reason(events: Vec<PullEvent>) -> (String, Option<String>) {
    let mut reg = registry();
    let mut join = Join::new(ID, OutputFormat::Adts, "peer");
    reg.subscribe(&mut join, JoinEvent::Proceed, 0);
    let mut pull = pull_of(0);
    let mut stop = None;
    for event in events {
        if let PullAction::Stop(url) = reg.pull(&mut pull, event, 0) {
            stop = url;
        }
    }
    (failure(reg.subscribe(&mut join, JoinEvent::Proceed, 0)), stop)
}

#[test]
fn a_pull_that_fails_tells_those_who_wait() {
    let stop = Some("http://e/cmd?method=stop".to_string());
    let refused = r#"{"response":null,"error":"unknown content id"}"#;
    assert_eq!(
        reason(vec![PullEvent::Handshake(Ok(refused.to_string()))]),
        ("engine error: unknown content id".to_string(), None)
    );
    assert_eq!(
        reason(vec![handshake(), PullEvent::Opened(Ok(503))]),
        ("engine returned http 503".to_string(), stop.clone())
    );
    assert_eq!(
        reason(vec![handshake(), PullEvent::Opened(Err("refused".to_string()))]),
        ("could not open engine stream: refused".to_string(), stop.clone())
    );
    assert_eq!(
        reason(vec![handshake(), PullEvent::Opened(Ok(200)), PullEvent::Broken("timed out".to_string())]),
        ("engine stream failed during preroll: timed out".to_string(), stop.clone())
    );
    assert_eq!(
        reason(vec![
            handshake(),
            PullEvent::Opened(Ok(200)),
            PullEvent::End,
            PullEvent::Probed(Err("no streams".to_string())),
        ]),
        ("could not probe stream: no streams".to_string(), stop)
    );
}

#[test]
fn the_preroll_is_what_is_probed() {
    let mut reg = registry();
    let mut join = Join::new(ID, OutputFormat::Adts, "peer");
    reg.subscribe(&mut join, JoinEvent::Proceed, 0);
    let mut pull = pull_of(0);
    reg.pull(&mut pull, handshake(), 0);
    reg.pull(&mut pull, PullEvent::Opened(Ok(200)), 0);
    let first = Bytes::from(vec![1; PREROLL - 10]);
    assert!(matches!(reg.pull(&mut pull, PullEvent::Data(first), 0), PullAction::Read(10)));
    match reg.pull(&mut pull, PullEvent::Data(Bytes::from(vec![2; 10])), 0) {
        PullAction::Probe(b) => {
            assert_eq!(b.len(), PREROLL);
            assert_eq!(&b[PREROLL - 11..], &[1, 2, 2, 2, 2, 2, 2, 2, 2, 2, 2]);
        }
        other => panic!("{other:?}"),
    }
    assert!(matches!(reg.pull(&mut pull, PullEvent::Tick, 0), PullAction::Ignore));
}

#[test]
fn a_pull_whose_stream_is_gone_stops() {
    let mut reg = registry();
    let mut pull = pull_of(0);
    assert!(matches!(reg.pull(&mut pull, handshake(), 0), PullAction::Open(_)));
    assert!(matches!(reg.pull(&mut pull, PullEvent::Opened(Ok(200)), 0), PullAction::Stop(Some(_))));
}

#[test]
fn a_direct_pull_has_nothing_to_stop() {
    let mut reg = registry();
    let (mut pull, url) = Pull::new(0, "e:1", ID, "proxy-1");
    assert_eq!(pull.serial(), 0);
    assert_eq!(url, format!("http://e:1/ace/getstream?id={ID}&pid=proxy-1&format=json"));
    match reg.pull(&mut pull, PullEvent::Handshake(Err("http 404".to_string())), 0) {
        PullAction::Open(url) => {
            assert_eq!(url, format!("http://e:1/ace/getstream?id={ID}&pid=proxy-1"));
        }
        other => panic!("{other:?}"),
    }
    assert!(matches!(reg.pull(&mut pull, PullEvent::Opened(Ok(200)), 0), PullAction::Stop(None)));
}

#[test]
fn an_encoder_that_does_not_keep_up_is_torn_down() {
    let mut reg = registry();
    let (mut join, mut pull) = bring_up(&mut reg);
    let (serial, id, _sub) = listen(&mut reg, &mut join);
    let chunk = || PullEvent::Data(Bytes::from_static(b"ts"));
    for _ in 0..64 {
        assert!(matches!(reg.pull(&mut pull, chunk(), 0), PullAction::Read(CHUNK)));
    }
    // The pull blocks rather than drop an encoder...
    assert!(matches!(reg.pull(&mut pull, chunk(), 0), PullAction::Sleep(RETRY)));
    assert!(matches!(reg.pull(&mut pull, PullEvent::Tick, TS_STALL - 1), PullAction::Sleep(RETRY)));
    // ...but not for ever.
    assert!(matches!(reg.pull(&mut pull, PullEvent::Tick, TS_STALL), PullAction::Read(CHUNK)));
    assert!(reg.live_streams()[0].live_encoders().is_empty());
    assert!(reg.has_encoder(serial, id), "it is fed no more, and its listeners drain it");
    for _ in 0..64 {
        assert!(matches!(reg.next_feed(serial, id), Received::Chunk(_)));
    }
    assert!(matches!(reg.next_feed(serial, id), Received::Closed));
}

#[test]
fn backpressure_ends_when_there_is_room() {
    let mut reg = registry();
    let (mut join, mut pull) = bring_up(&mut reg);
    let (serial, id, _sub) = listen(&mut reg, &mut join);
    for _ in 0..64 {
        reg.pull(&mut pull, PullEvent::Data(Bytes::from_static(b"ts")), 0);
    }
    let last = PullEvent::Data(Bytes::from_static(b"last"));
    assert!(matches!(reg.pull(&mut pull, last, 0), PullAction::Sleep(RETRY)));
    assert!(matches!(reg.next_feed(serial, id), Received::Chunk(_)));
    assert!(matches!(reg.pull(&mut pull, PullEvent::Tick, 5), PullAction::Read(CHUNK)));
    for _ in 0..63 {
        reg.next_feed(serial, id);
    }
    match reg.next_feed(serial, id) {
        Received::Chunk(b) => assert_eq!(&b[..], b"last"),
        other => panic!("{other:?}"),
    }
}

#[test]
fn an_encoder_whose_ffmpeg_is_gone_is_fed_no_more() {
    let mut reg = registry();
    let (mut join, mut pull) = bring_up(&mut reg);
    let (serial, id, _sub) = listen(&mut reg, &mut join);
    reg.stop_feed(serial, id);
    reg.finish(serial, id);
    let chunk = PullEvent::Data(Bytes::from_static(b"ts"));
    assert!(matches!(reg.pull(&mut pull, chunk, 0), PullAction::Read(CHUNK)));
    assert!(reg.targets(serial).is_empty());
}

/// A stream whose pull waits with a chunk for the only encoder, which is full,
/// and a request that keeps the stream.
fn blocked(reg: &mut Registry) -> (Join, Pull, u64, u64, Subscription) {
    let (mut join, mut pull) = bring_up(reg);
    let mut keep = Join::new(ID, OutputFormat::Adts, "keep");
    reg.subscribe(&mut keep, JoinEvent::Proceed, 0);
    let (serial, id, sub) = listen(reg, &mut join);
    for _ in 0..64 {
        reg.pull(&mut pull, PullEvent::Data(Bytes::from_static(b"ts")), 0);
    }
    let last = PullEvent::Data(Bytes::from_static(b"last"));
    assert!(matches!(reg.pull(&mut pull, last, 0), PullAction::Sleep(RETRY)));
    (keep, pull, serial, id, sub)
}

#[test]
fn an_encoder_that_goes_with_its_feeder_ends_as_gone() {
    let mut reg = registry();
    let (mut keep, mut pull, serial, id, sub) = blocked(&mut reg);
    reg.remove_listener(serial, id, sub);
    assert!(!reg.has_encoder(serial, id));

    // Its feeder has not noticed, and a replacement is started meanwhile.
    assert!(matches!(reg.pull(&mut pull, PullEvent::Tick, 1), PullAction::Sleep(RETRY)));
    let (_, new, _sub) = listen_again(&mut reg, &mut keep);
    assert_eq!(reg.targets(serial), vec![(OutputFormat::Adts, new)]);

    // Once it has, the chunk is refused for good, and what is fed for that
    // format is given up.
    reg.stop_feed(serial, id);
    assert!(matches!(reg.pull(&mut pull, PullEvent::Tick, 2), PullAction::Read(CHUNK)));
    assert!(reg.targets(serial).is_empty());
    assert!(reg.encoder(serial, new).is_some_and(|e| e.id() == new && !e.is_registered()));
    assert!(reg.encoder(serial, id).is_none());
}

#[test]
fn an_encoder_that_goes_before_its_feeder_takes_the_chunk() {
    let mut reg = registry();
    let (mut keep, mut pull, serial, id, sub) = blocked(&mut reg);
    reg.remove_listener(serial, id, sub);
    let (_, new, _sub) = listen_again(&mut reg, &mut keep);

    assert!(matches!(reg.next_feed(serial, id), Received::Chunk(_)));
    assert!(matches!(reg.pull(&mut pull, PullEvent::Tick, 1), PullAction::Read(CHUNK)));
    assert_eq!(reg.targets(serial), vec![(OutputFormat::Adts, new)]);
    for _ in 0..63 {
        assert!(matches!(reg.next_feed(serial, id), Received::Chunk(_)));
    }
    match reg.next_feed(serial, id) {
        Received::Chunk(b) => assert_eq!(&b[..], b"last"),
        other => panic!("{other:?}"),
    }
    assert!(matches!(reg.next_feed(serial, id), Received::Closed));
    assert!(matches!(reg.next_feed(serial, new), Received::Empty));
}

#[test]
fn a_blocked_pull_keeps_its_stream() {
    let mut reg = registry();
    let (mut join, mut pull) = bring_up(&mut reg);
    let (serial, id, sub) = listen(&mut reg, &mut join);
    for _ in 0..64 {
        reg.pull(&mut pull, PullEvent::Data(Bytes::from_static(b"ts")), 0);
    }
    let last = PullEvent::Data(Bytes::from_static(b"last"));
    assert!(matches!(reg.pull(&mut pull, last, 0), PullAction::Sleep(RETRY)));

    // The last listener leaves while the puller waits with a chunk; a request
    // that follows joins the same pull.
    reg.remove_listener(serial, id, sub);
    assert!(!reg.has_encoder(serial, id));
    assert!(reg.has_stream(serial));
    let mut again = Join::new(ID, OutputFormat::Adts, "again");
    assert!(matches!(reg.subscribe(&mut again, JoinEvent::Proceed, 1), JoinAction::Again));
    assert!(matches!(again.stage(), Stage::Starting { serial: s, .. } if s == serial));
    assert_eq!(reg.live_streams().len(), 1);
    let (_, new, sub) = listen_again(&mut reg, &mut again);

    // It is over with the chunk, and then goes with the last listener again.
    reg.stop_feed(serial, id);
    assert!(matches!(reg.pull(&mut pull, PullEvent::Tick, 2), PullAction::Read(CHUNK)));
    assert!(reg.has_stream(serial));
    reg.remove_listener(serial, new, sub);
    assert!(!reg.has_stream(serial));
}

#[test]
fn a_stream_that_only_its_puller_holds_goes_with_the_chunk() {
    let mut reg = registry();
    let (mut join, mut pull) = bring_up(&mut reg);
    let (serial, id, sub) = listen(&mut reg, &mut join);
    for _ in 0..65 {
        reg.pull(&mut pull, PullEvent::Data(Bytes::from_static(b"ts")), 0);
    }
    reg.remove_listener(serial, id, sub);
    assert!(matches!(reg.pull(&mut pull, PullEvent::Tick, 1), PullAction::Sleep(RETRY)));
    assert!(reg.has_stream(serial));
    reg.stop_feed(serial, id);
    assert!(matches!(reg.pull(&mut pull, PullEvent::Tick, 2), PullAction::Read(CHUNK)));
    assert!(!reg.has_stream(serial));
    let e = PullEvent::Broken("shut down".to_string());
    assert!(matches!(reg.pull(&mut pull, e, 3), PullAction::Stop(Some(_))));
}

#[test]
fn asking_for_statistics_keeps_a_stream() {
    let mut reg = registry();
    let (mut join, mut pull) = bring_up(&mut reg);
    let (serial, id, sub) = listen(&mut reg, &mut join);
    assert_eq!(reg.begin_poll(), vec![serial]);
    reg.remove_listener(serial, id, sub);
    assert!(reg.has_stream(serial), "its statistics are being asked for");
    assert!(matches!(
        reg.pull(&mut pull, PullEvent::Data(Bytes::from_static(b"ts")), 0),
        PullAction::Read(CHUNK)
    ));
    let mut again = Join::new(ID, OutputFormat::Adts, "again");
    assert!(matches!(reg.subscribe(&mut again, JoinEvent::Proceed, 1), JoinAction::Again));
    reg.record_stats(serial, 1, Value::Null);
    reg.end_poll(serial);
    assert!(reg.has_stream(serial), "a request holds it");
    assert_eq!(reg.live_streams()[0].stats(), Some(Value::Null));
    let (_, new, sub) = listen_again(&mut reg, &mut again);

    // A stream that nobody holds any more goes with the end of the asking.
    assert_eq!(reg.begin_poll(), vec![serial]);
    reg.remove_listener(serial, new, sub);
    reg.end_poll(serial);
    assert!(!reg.has_stream(serial));
    reg.end_poll(serial);
    assert!(reg.begin_poll().is_empty());
}

#[test]
fn a_pull_tells_once_how_it_started() {
    let mut reg = registry();
    let (mut join, mut pull) = bring_up(&mut reg);
    let e = PullEvent::Broken("timed out".to_string());
    assert!(matches!(reg.pull(&mut pull, e, 0), PullAction::Stop(Some(_))));
    // The stream stays ready for whoever waits for it.
    assert!(matches!(reg.subscribe(&mut join, JoinEvent::Proceed, 0), JoinAction::Again));
    assert!(matches!(join.stage(), Stage::Acquiring { .. }));
}

#[test]
fn a_pull_ends_when_the_engine_closes() {
    let mut reg = registry();
    let (_join, mut pull) = bring_up(&mut reg);
    assert!(matches!(reg.pull(&mut pull, PullEvent::End, 0), PullAction::Stop(Some(_))));
    let (_join, mut pull) = bring_up(&mut registry());
    let e = PullEvent::Broken("timed out".to_string());
    assert!(matches!(registry().pull(&mut pull, e, 0), PullAction::Stop(Some(_))));
}
