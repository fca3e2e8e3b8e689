use acestream_audio::encoder::{
    Awaited, Delivery, Encoder, Joined, Subscription, INIT_TIMEOUT, SUB_QUEUE, TS_QUEUE,
};
use acestream_audio::format::{OutputFormat, TrackMode};
use acestream_audio::mp4::Piece;
use acestream_audio::queue::{Queue, Received, Sent};
use acestream_audio::replay::REPLAY_BYTES;
use acestream_audio::stream::{Encoding, EngineStream, Probe, Waited, START_TIMEOUT};
use acestream_audio::engine::Session;
use bytes::Bytes;

fn test_engine() -> EngineStream {
    EngineStream::new(0, &"a".repeat(40), 0)
}

/// An encoder with no ffmpeg behind it, for exercising the fan-out policy.
fn test_encoder(fmt: OutputFormat) -> Encoder {
    Encoder::new(0, &"a".repeat(40), fmt, TrackMode::Copy, TrackMode::Copy, 0)
}

/// Subscribes for a request of its own, which has not waited yet.
fn subscribe(enc: &mut Encoder, peer: &str) -> Result<Subscription, String> {
    enc.hold();
    match enc.subscribe(peer, 0, 0) {
        Joined::Done(sub) => Ok(sub),
        Joined::Fail(e) => Err(e),
        Joined::Wait(left) => panic!("has to wait for {left}ms"),
    }
}

fn media(len: usize, fragment_start: bool) -> Piece {
    Piece::Media { data: Bytes::from(vec![0xAB; len]), fragment_start }
}

/// Build `count` TS packets whose payload byte identifies the packet.
fn ts_packets(count: usize) -> Vec<u8> {
    let mut v = Vec::with_capacity(count * 188);
    for i in 0..count {
        v.push(0x47);
        v.extend_from_slice(&[0x01, 0x00, 0x10]);
        v.extend(std::iter::repeat_n((i & 0xFF) as u8, 184));
    }
    v
}

fn box_of(kind: &[u8; 4], body: &[u8]) -> Vec<u8> {
    let mut v = ((8 + body.len()) as u32).to_be_bytes().to_vec();
    v.extend_from_slice(kind);
    v.extend_from_slice(body);
    v
}

fn data(d: Delivery) -> Vec<u8> {
    match d {
        Delivery::Data(b) => b.to_vec(),
        other => panic!("{other:?}"),
    }
}

#[test]
fn replay_window_keeps_the_most_recent_bytes() {
    let mut s = test_engine();
    let packets = REPLAY_BYTES / 188 + 500;
    let data = ts_packets(packets);
    // Feed in chunks, as the puller does.
    for chunk in data.chunks(64 * 1024) {
        s.remember(chunk);
    }

    let window = s.replay_window();
    assert!(window.len() <= REPLAY_BYTES);
    assert!(window.len() > REPLAY_BYTES - 188 * 2);
    // The tail must be the newest data, not the oldest.
    assert_eq!(&window[window.len() - 184..], &data[data.len() - 184..]);
}

#[test]
fn replay_window_starts_on_a_packet_boundary() {
    let mut s = test_engine();
    // Overflow by a partial packet so the window starts mid-packet.
    let data = ts_packets(REPLAY_BYTES / 188 + 3);
    s.remember(&data[57..]);
    let window = s.replay_window();
    assert_eq!(window.first(), Some(&0x47), "must begin at a sync byte");
    assert_eq!(window[188], 0x47, "and the next packet must line up");
}

#[test]
fn replay_window_is_empty_before_any_data() {
    assert!(test_engine().replay_window().is_empty());
}

#[test]
fn replay_window_survives_a_stream_with_no_sync_bytes() {
    let mut s = test_engine();
    // Garbage in, garbage out — but no panic, and nothing silently dropped.
    s.remember(&vec![0x00; 1000]);
    assert_eq!(s.replay_window().len(), 1000);
}

#[test]
fn replay_window_is_not_fooled_by_a_lone_sync_byte() {
    let mut s = test_engine();
    let mut data = vec![0x47, 0, 0];
    data.extend(ts_packets(3));
    s.remember(&data);
    assert_eq!(s.replay_window(), &data[3..]);
}

#[test]
fn audio_listeners_start_receiving_immediately() {
    let mut enc = test_encoder(OutputFormat::Adts);
    let sub = subscribe(&mut enc, "peer").unwrap();
    // ADTS is self-synchronising, so there is nothing to wait for.
    enc.fan_out(&media(10, false));
    assert_eq!(sub.bytes_sent(&enc), 10);
}

#[test]
fn fmp4_listeners_wait_for_a_fragment_boundary() {
    let mut enc = test_encoder(OutputFormat::Fmp4);
    enc.cache_init(Bytes::from_static(b"ftypmoov"));
    let sub = subscribe(&mut enc, "peer").unwrap();

    // Mid-fragment bytes are useless to a client holding only the init
    // segment, so they must be withheld.
    enc.fan_out(&media(10, false));
    assert_eq!(sub.bytes_sent(&enc), 0, "mid-fragment data must be held back");

    enc.fan_out(&media(20, true));
    assert_eq!(sub.bytes_sent(&enc), 20, "must attach at the moof");

    // Once attached, everything flows.
    enc.fan_out(&media(5, false));
    assert_eq!(sub.bytes_sent(&enc), 25);
}

#[test]
fn fmp4_subscribe_blocks_until_the_first_fragment_arrives() {
    let mut enc = test_encoder(OutputFormat::Fmp4);
    // Waiting is the whole point: tearing down and retrying would restart
    // ffmpeg and never converge.
    assert!(matches!(enc.subscribe("peer", 0, 0), Joined::Wait(INIT_TIMEOUT)));
    assert!(matches!(enc.subscribe("peer", 0, 149), Joined::Wait(_)));
    enc.cache_init(Bytes::from_static(b"ftypmoov"));
    assert!(matches!(enc.subscribe("peer", 0, 150), Joined::Done(_)));
}

#[test]
fn fmp4_subscribe_fails_fast_once_the_encoder_has_finished() {
    let mut enc = test_encoder(OutputFormat::Fmp4);
    enc.finish();
    // Must not sit out the full INIT_TIMEOUT waiting on a dead encoder.
    assert_eq!(
        subscribe(&mut enc, "peer").unwrap_err(),
        "encoder stopped before producing a fragment"
    );
}

#[test]
fn fmp4_subscribe_is_refused_when_the_stream_did_not_parse() {
    let mut enc = test_encoder(OutputFormat::Fmp4);
    // Init was cached before the structure broke. Serving it anyway would
    // leave the joiner waiting forever for a boundary that never comes.
    enc.cache_init(Bytes::from_static(b"ftypmoov"));
    enc.refuse_joiners();
    assert_eq!(subscribe(&mut enc, "peer").unwrap_err(), "stream is not valid fragmented mp4");
}

#[test]
fn fmp4_joiners_give_up_in_the_end() {
    let mut enc = test_encoder(OutputFormat::Fmp4);
    assert!(matches!(enc.await_init_segment(5, 4), Awaited::Wait(INIT_TIMEOUT)));
    assert!(matches!(enc.await_init_segment(5, 30004), Awaited::Wait(1)));
    match enc.subscribe("peer", 5, 30005) {
        Joined::Fail(e) => {
            assert_eq!(e, "no fragment within 30s; the source keyframe interval may exceed it");
        }
        other => panic!("{other:?}"),
    }
    assert!(enc.is_idle(), "a request that has failed holds nothing");
}

#[test]
fn a_slow_listener_is_evicted_rather_than_blocking_the_others() {
    let mut enc = test_encoder(OutputFormat::Adts);
    let slow = subscribe(&mut enc, "slow").unwrap();
    let _fast = subscribe(&mut enc, "fast").unwrap();
    assert_eq!(enc.listener_count(), 2);

    // Neither reads, so both back up. A shared producer must not block on
    // its slowest consumer.
    for _ in 0..(SUB_QUEUE + 8) {
        enc.fan_out(&media(64, true));
    }
    assert_eq!(enc.listener_count(), 0, "both should have been evicted");
    enc.remove_listener(slow);
}

#[test]
fn a_listener_that_reads_outlives_one_that_does_not() {
    let mut enc = test_encoder(OutputFormat::Adts);
    let _slow = subscribe(&mut enc, "slow").unwrap();
    let fast = subscribe(&mut enc, "fast").unwrap();
    for _ in 0..(SUB_QUEUE + 8) {
        enc.fan_out(&media(64, true));
        assert_eq!(data(fast.read(&mut enc, 100)).len(), 64);
    }
    assert_eq!(enc.listener_count(), 1);
    assert_eq!(fast.bytes_sent(&enc), (SUB_QUEUE as u64 + 8) * 64);
    assert_eq!(fast.counter(&enc), fast.bytes_sent(&enc));
    assert_eq!(enc.listener_info(61_999), vec![("fast".to_string(), 61, 4608)]);
}

#[test]
fn dropping_a_subscription_deregisters_its_listener() {
    let mut enc = test_encoder(OutputFormat::Adts);
    let a = subscribe(&mut enc, "a").unwrap();
    let b = subscribe(&mut enc, "b").unwrap();
    assert_eq!(enc.listener_count(), 2);
    enc.remove_listener(a);
    assert_eq!(enc.listener_count(), 1);
    enc.remove_listener(b);
    assert_eq!(enc.listener_count(), 0);
}

#[test]
fn subscription_read_hands_back_partial_chunks() {
    let mut enc = test_encoder(OutputFormat::Adts);
    let sub = subscribe(&mut enc, "peer").unwrap();
    enc.fan_out(&media(10, true));

    // tiny_http reads with whatever buffer it likes; a chunk larger than
    // the buffer must be handed out across successive reads.
    let mut total = 0;
    for _ in 0..4 {
        let n = data(sub.read(&mut enc, 3)).len();
        total += n;
        if total == 10 {
            break;
        }
    }
    assert_eq!(total, 10);
}

#[test]
fn subscription_read_ends_cleanly_when_the_encoder_stops() {
    let mut enc = test_encoder(OutputFormat::Adts);
    let sub = subscribe(&mut enc, "peer").unwrap();
    assert!(matches!(sub.read(&mut enc, 8), Delivery::Wait));
    // Losing the listener closes the queue; what is in it is still read.
    for _ in 0..(SUB_QUEUE + 1) {
        enc.fan_out(&media(8, true));
    }
    assert_eq!(enc.listener_count(), 0);
    for _ in 0..SUB_QUEUE {
        assert_eq!(data(sub.read(&mut enc, 8)).len(), 8);
    }
    assert!(matches!(sub.read(&mut enc, 8), Delivery::End), "must EOF, not error");
}

#[test]
fn fmp4_listeners_receive_the_init_segment_first() {
    let mut enc = test_encoder(OutputFormat::Fmp4);
    enc.cache_init(Bytes::from_static(b"ftypmoov"));
    let sub = subscribe(&mut enc, "peer").unwrap();
    enc.fan_out(&media(4, true));

    let buf = data(sub.read(&mut enc, 8));
    assert_eq!(buf.len(), 8);
    assert_eq!(&buf, b"ftypmoov", "init segment must precede all media");
}

#[test]
fn a_late_joiner_gets_the_init_segment_and_the_next_fragment() {
    let mut enc = test_encoder(OutputFormat::Fmp4);
    let mut init = box_of(b"ftyp", b"isom");
    init.extend(box_of(b"moov", &[1; 20]));
    let mut first = box_of(b"moof", &[2; 12]);
    first.extend(box_of(b"mdat", &[3; 30]));
    let mut second = box_of(b"moof", &[4; 12]);
    second.extend(box_of(b"mdat", &[5; 30]));

    enc.drain_ffmpeg(Bytes::from(init.clone()));
    enc.drain_ffmpeg(Bytes::copy_from_slice(&first[..25]));
    let sub = subscribe(&mut enc, "peer").unwrap();
    enc.drain_ffmpeg(Bytes::copy_from_slice(&first[25..]));
    for piece in second.chunks(7) {
        enc.drain_ffmpeg(Bytes::copy_from_slice(piece));
    }
    let mut got = Vec::new();
    while let Delivery::Data(b) = sub.read(&mut enc, 5) {
        got.extend_from_slice(&b);
    }
    let mut want = init.clone();
    want.extend(&second);
    assert_eq!(got, want);
    assert_eq!(enc.bytes_out(), (init.len() + first.len() + second.len()) as u64);
    assert_eq!(sub.bytes_sent(&enc), second.len() as u64, "the init segment is not counted");
}

#[test]
fn output_that_does_not_parse_refuses_joiners() {
    let mut enc = test_encoder(OutputFormat::Fmp4);
    assert!(enc.is_joinable());
    enc.drain_ffmpeg(Bytes::from(box_of(b"junk", &[0; 8])));
    assert!(!enc.is_joinable());
    assert_eq!(subscribe(&mut enc, "peer").unwrap_err(), "stream is not valid fragmented mp4");
}

#[test]
fn encoder_deregisters_itself_from_the_engine_on_drop() {
    let mut engine = test_engine();
    let (enc, _) = engine.start_encoder(OutputFormat::Adts, TrackMode::Dropped, TrackMode::Copy, 0);
    assert_eq!(engine.live_encoders().len(), 1);

    engine.release_encoder(enc);
    assert!(engine.live_encoders().is_empty());
    assert!(!engine.has_encoder(enc));
}

#[test]
fn a_feed_outlives_its_encoder_until_nobody_takes_from_it() {
    let mut s = test_engine();
    let (enc, _) = s.start_encoder(OutputFormat::Adts, TrackMode::Dropped, TrackMode::Copy, 0);
    assert!(matches!(s.offer_feed(enc, Bytes::from_static(b"a")), Sent::Done));
    s.release_encoder(enc);
    assert!(matches!(s.offer_feed(enc, Bytes::from_static(b"b")), Sent::Done));
    for want in [b"a", b"b"] {
        match s.next_feed(enc) {
            Received::Chunk(b) => assert_eq!(&b[..], want),
            other => panic!("{other:?}"),
        }
    }
    assert!(matches!(s.next_feed(enc), Received::Closed), "ffmpeg must see EOF");
    s.stop_feed(enc);
    assert!(matches!(s.offer_feed(enc, Bytes::from_static(b"c")), Sent::Gone));
    assert!(matches!(s.next_feed(enc), Received::Closed));

    let (enc, _) = s.start_encoder(OutputFormat::Adts, TrackMode::Dropped, TrackMode::Copy, 0);
    s.stop_feed(enc);
    s.release_encoder(enc);
    assert!(matches!(s.offer_feed(enc, Bytes::from_static(b"a")), Sent::Gone));
    assert!(matches!(s.offer_feed(99, Bytes::from_static(b"a")), Sent::Gone));
}

#[test]
fn an_encoder_is_primed_with_what_came_before_and_fed_what_comes_after() {
    let mut s = test_engine();
    let packets = ts_packets(4);
    s.receive(&packets[..376]);
    let (enc, prime) = s.start_encoder(OutputFormat::Mp3, TrackMode::Dropped, TrackMode::Copy, 7);
    assert_eq!(prime, &packets[..376]);
    s.receive(&packets[376..]);
    for (fmt, id) in s.targets() {
        assert_eq!((fmt, id), (OutputFormat::Mp3, enc));
        assert!(matches!(s.offer_feed(id, Bytes::copy_from_slice(&packets[376..])), Sent::Done));
    }
    match s.next_feed(enc) {
        Received::Chunk(b) => assert_eq!(&b[..], &packets[376..]),
        other => panic!("{other:?}"),
    }
    assert!(matches!(s.next_feed(enc), Received::Empty));
    assert_eq!(s.bytes_in(), 752);

    assert!(s.deregister(OutputFormat::Mp3));
    assert!(!s.deregister(OutputFormat::Mp3));
    assert!(matches!(s.next_feed(enc), Received::Closed), "ffmpeg must see EOF");
    assert!(s.has_encoder(enc), "its listeners keep it alive");
}

#[test]
fn queues_are_bounded_and_ordered() {
    let mut q = Queue::new(2);
    assert!(matches!(q.try_send(Bytes::from_static(b"a")), Sent::Done));
    assert!(matches!(q.try_send(Bytes::from_static(b"b")), Sent::Done));
    match q.try_send(Bytes::from_static(b"c")) {
        Sent::Full(back) => assert_eq!(&back[..], b"c"),
        other => panic!("{other:?}"),
    }
    match q.try_receive() {
        Received::Chunk(b) => assert_eq!(&b[..], b"a"),
        other => panic!("{other:?}"),
    }
    q.close_sender();
    assert!(!q.is_sending());
    assert!(matches!(q.try_receive(), Received::Chunk(_)));
    assert!(matches!(q.try_receive(), Received::Closed));
    q.close_receiver();
    assert!(matches!(q.try_send(Bytes::from_static(b"d")), Sent::Gone));
}

#[test]
fn a_full_feed_hands_the_chunk_back() {
    let mut s = test_engine();
    let (enc, _) = s.start_encoder(OutputFormat::Adts, TrackMode::Dropped, TrackMode::Copy, 0);
    for _ in 0..TS_QUEUE {
        assert!(matches!(s.offer_feed(enc, Bytes::from_static(b"x")), Sent::Done));
    }
    assert!(s.encoder(enc).unwrap().is_backed_up());
    assert!(s.encoder(enc).unwrap().has_taker());
    assert!(matches!(s.offer_feed(enc, Bytes::from_static(b"x")), Sent::Full(_)));
    assert!(matches!(s.next_feed(enc), Received::Chunk(_)));
    assert!(!s.encoder(enc).unwrap().is_backed_up());
    s.stop_feed(enc);
    assert!(!s.encoder(enc).unwrap().has_taker());
    assert!(s.encoder(enc + 1).is_none());
    assert!(matches!(s.offer_feed(enc, Bytes::from_static(b"x")), Sent::Gone));
}

fn session() -> Session {
    Session {
        playback_url: "http://e/play".to_string(),
        stat_url: Some("http://e/stat".to_string()),
        command_url: None,
    }
}

fn probe(audio: Option<&str>) -> Probe {
    Probe { video: Some("h264".to_string()), audio: audio.map(|a| a.to_string()) }
}

#[test]
fn a_stream_is_waited_for() {
    let mut s = test_engine();
    assert!(matches!(s.wait_ready(10, 10), Waited::Wait(START_TIMEOUT)));
    assert!(matches!(s.wait_ready(10, 45_009), Waited::Wait(1)));
    match s.wait_ready(10, 45_010) {
        Waited::Fail(e) => assert_eq!(e, "timed out waiting for the engine stream to start"),
        other => panic!("{other:?}"),
    }
    s.publish(Err("engine error: no".to_string()));
    match s.wait_ready(10, 10) {
        Waited::Fail(e) => assert_eq!(e, "engine error: no"),
        other => panic!("{other:?}"),
    }
    assert!(s.probe().is_none());
    assert_eq!(s.stat_url(), None);
    s.come_up(session(), probe(None));
    assert!(matches!(s.wait_ready(10, u64::MAX), Waited::Ready));
    assert_eq!(s.probe(), Some(&probe(None)));
    assert_eq!(s.stat_url().as_deref(), Some("http://e/stat"));
    // The first result stays.
    s.come_up(session(), probe(Some("aac")));
    assert_eq!(s.probe(), Some(&probe(None)));
}

#[test]
fn statistics_are_kept_as_they_came_last() {
    let mut s = test_engine();
    assert!(s.stats().is_none());
    let v: serde_json::Value = serde_json::from_str(r#"{"peers":3}"#).unwrap();
    s.record_stats(1, v.clone());
    assert_eq!(s.stats(), Some(v));
}

#[test]
fn a_running_encoder_is_shared_and_a_finished_one_replaced() {
    let mut s = test_engine();
    match s.get_or_start_encoder(OutputFormat::Adts, None) {
        Encoding::Fail(e) => assert_eq!(e, "engine stream has no probe result"),
        other => panic!("{other:?}"),
    }
    s.come_up(session(), probe(Some("aac")));
    let plan = match s.get_or_start_encoder(OutputFormat::Adts, None) {
        Encoding::Start(p) => p,
        other => panic!("{other:?}"),
    };
    assert_eq!(plan.audio, TrackMode::Copy);
    assert!(matches!(s.get_or_start_encoder(OutputFormat::Mp3, None), Encoding::Busy));
    let (first, _) = s.start_encoder(OutputFormat::Adts, plan.video, plan.audio, 0);
    assert!(matches!(s.get_or_start_encoder(OutputFormat::Adts, None), Encoding::Busy));
    s.end_creation();
    assert!(matches!(s.get_or_start_encoder(OutputFormat::Adts, None), Encoding::Existing(id) if id == first));

    s.finish(first);
    assert!(matches!(s.get_or_start_encoder(OutputFormat::Adts, None), Encoding::Start(_)));
    let (second, _) = s.start_encoder(OutputFormat::Adts, plan.video, plan.audio, 0);
    assert_ne!(first, second);
    let live: Vec<u64> = s.live_encoders().iter().map(|e| e.id()).collect();
    assert_eq!(live, vec![second]);
    assert!(s.has_encoder(first), "its listeners drain it");

    // The old one stopping does not take the new one's place away.
    s.release_encoder(first);
    assert!(s.has_encoder(first), "two requests held it");
    s.release_encoder(first);
    assert!(!s.has_encoder(first));
    assert_eq!(s.targets(), vec![(OutputFormat::Adts, second)]);
}

#[test]
fn a_start_that_is_abandoned_can_be_tried_again() {
    let mut s = test_engine();
    s.come_up(session(), probe(None));
    assert!(matches!(s.get_or_start_encoder(OutputFormat::Fmp4, Some(200)), Encoding::Start(_)));
    s.end_creation();
    assert!(matches!(s.get_or_start_encoder(OutputFormat::Fmp4, Some(200)), Encoding::Start(_)));
}

#[test]
fn tearing_one_format_down_leaves_the_others_alone() {
    let mut s = test_engine();
    let (a, _) = s.start_encoder(OutputFormat::Adts, TrackMode::Dropped, TrackMode::Copy, 0);
    let (b, _) = s.start_encoder(OutputFormat::Mp3, TrackMode::Dropped, TrackMode::Copy, 0);
    assert!(s.deregister(OutputFormat::Adts));
    assert_eq!(s.targets(), vec![(OutputFormat::Mp3, b)]);
    assert!(s.has_encoder(a));
}
