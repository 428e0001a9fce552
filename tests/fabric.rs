use vessels::{
    aggregate_poll, conforms, construct, deconstruct, ChannelError, ChannelPoll, ConstructError,
    DeconstructError, ForkHandle,
    ErrorShim, IdChannel, IdChannelError, Item, Kind, Payload, SinkPoll, SinkStage, VOption, Value,
};

fn drain(ch: &mut IdChannel) -> Vec<Item> {
    let mut out = Vec::new();
    while let Some(item) = ch.poll_next(true) {
        out.push(item);
    }
    out
}

fn send_root(kind: &Kind, value: &Value) -> (IdChannel, Vec<Item>) {
    let mut ch = IdChannel::new_with(kind.types());
    deconstruct(kind, value, ForkHandle(0), &mut ch).unwrap();
    let frames = drain(&mut ch);
    (ch, frames)
}

#[test]
fn word_root_sends_one_frame() {
    let kind = Kind::Word;
    let mut ch = IdChannel::new_with(kind.types());
    assert_eq!(ch.context().len(), 1);
    deconstruct(&kind, &Value::Word(42), ForkHandle(0), &mut ch).unwrap();
    assert_eq!(ch.context().len(), 1);
    let frames = drain(&mut ch);
    assert_eq!(frames, vec![Item(ForkHandle(0), Payload::Word(42))]);
    assert_eq!(ch.context().len(), 1);

    let mut peer = IdChannel::new_with(kind.types());
    peer.start_send(frames[0].clone()).unwrap();
    assert_eq!(peer.next(ForkHandle(0)), Some(Payload::Word(42)));
    assert_eq!(construct(&kind, &frames, ForkHandle(0)), Ok(Value::Word(42)));
    assert_eq!(peer.context().len(), 1);
}

#[test]
fn absent_option_sends_one_frame() {
    let kind = Kind::Opt(Box::new(Kind::Word));
    let (ch, frames) = send_root(&kind, &Value::Opt(None));
    assert_eq!(frames, vec![Item(ForkHandle(0), Payload::Opt(VOption::Absent))]);
    assert_eq!(ch.context().len(), 1);
    assert_eq!(construct(&kind, &frames, ForkHandle(0)), Ok(Value::Opt(None)));
}

#[test]
fn present_option_opens_one_child() {
    let kind = Kind::Opt(Box::new(Kind::Word));
    let mut ch = IdChannel::new_with(kind.types());
    assert_eq!(ch.context().len(), 1);
    let value = Value::Opt(Some(Box::new(Value::Word(7))));
    deconstruct(&kind, &value, ForkHandle(0), &mut ch).unwrap();
    assert_eq!(ch.context().len(), 2);
    let frames = drain(&mut ch);
    assert_eq!(
        frames,
        vec![
            Item(ForkHandle(0), Payload::Opt(VOption::Present(ForkHandle(1)))),
            Item(ForkHandle(1), Payload::Word(7)),
        ]
    );
    assert_eq!(construct(&kind, &frames, ForkHandle(0)), Ok(value));
    assert!(ch.drop_fork(ForkHandle(1)));
    assert_eq!(ch.context().len(), 1);
    assert_eq!(ch.route_count(), 1);
}

#[test]
fn pair_lists_both_field_forks() {
    let kind = Kind::Tuple(vec![Kind::Word, Kind::Word]);
    let value = Value::Tuple(vec![Value::Word(9), Value::Word(10)]);
    let (ch, frames) = send_root(&kind, &value);
    assert_eq!(
        frames,
        vec![
            Item(ForkHandle(1), Payload::Word(9)),
            Item(ForkHandle(2), Payload::Word(10)),
            Item(ForkHandle(0), Payload::Handles(vec![ForkHandle(1), ForkHandle(2)])),
        ]
    );
    assert_eq!(ch.context().len(), 3);
    assert_eq!(
        construct(&kind, &frames, ForkHandle(0)),
        Ok(Value::Tuple(vec![Value::Word(9), Value::Word(10)]))
    );
}

#[test]
fn empty_sequence_sends_empty_list() {
    let kind = Kind::Items(Box::new(Kind::Byte));
    let (ch, frames) = send_root(&kind, &Value::Items(vec![]));
    assert_eq!(frames, vec![Item(ForkHandle(0), Payload::Handles(vec![]))]);
    assert_eq!(ch.context().len(), 1);
    assert_eq!(construct(&kind, &frames, ForkHandle(0)), Ok(Value::Items(vec![])));
}

#[test]
fn unknown_fork_is_refused_and_channel_goes_on() {
    let mut peer = IdChannel::new_with(Kind::Word.types());
    assert_eq!(
        peer.start_send(Item(ForkHandle(999), Payload::Word(1))),
        Err(IdChannelError::InvalidId(ForkHandle(999)))
    );
    assert_eq!(peer.route_count(), 1);
    peer.start_send(Item(ForkHandle(0), Payload::Word(5))).unwrap();
    assert_eq!(peer.next(ForkHandle(0)), Some(Payload::Word(5)));
}

#[test]
fn nested_value_round_trips() {
    let kind = Kind::Tuple(vec![
        Kind::Items(Box::new(Kind::Opt(Box::new(Kind::Byte)))),
        Kind::Flag,
        Kind::Opt(Box::new(Kind::Tuple(vec![Kind::Word, Kind::Byte]))),
    ]);
    let make = || {
        Value::Tuple(vec![
            Value::Items(vec![
                Value::Opt(Some(Box::new(Value::Byte(3)))),
                Value::Opt(None),
                Value::Opt(Some(Box::new(Value::Byte(255)))),
            ]),
            Value::Flag(true),
            Value::Opt(Some(Box::new(Value::Tuple(vec![Value::Word(70000), Value::Byte(0)])))),
        ])
    };
    let (ch, frames) = send_root(&kind, &make());
    assert_eq!(construct(&kind, &frames, ForkHandle(0)), Ok(make()));
    let live = ch.context().len();
    assert_eq!(live, 1 + 3 + 2 + 3 + 1 + 2);
}

#[test]
fn frames_arrive_in_order_on_each_fork() {
    let mut peer = IdChannel::new_with(Kind::Word.types());
    let child = peer.fork(Kind::Byte.types()).unwrap();
    for (i, w) in [4u32, 1, 3].iter().enumerate() {
        peer.start_send(Item(ForkHandle(0), Payload::Word(*w))).unwrap();
        peer.start_send(Item(child, Payload::Byte(i as u8))).unwrap();
    }
    assert_eq!(peer.next(ForkHandle(0)), Some(Payload::Word(4)));
    assert_eq!(peer.next(child), Some(Payload::Byte(0)));
    assert_eq!(peer.next(ForkHandle(0)), Some(Payload::Word(1)));
    assert_eq!(peer.next(ForkHandle(0)), Some(Payload::Word(3)));
    assert_eq!(peer.next(ForkHandle(0)), None);
    assert_eq!(peer.next(child), Some(Payload::Byte(1)));
    assert_eq!(peer.next(child), Some(Payload::Byte(2)));
}

#[test]
fn transport_not_ready_holds_frames() {
    let mut ch = IdChannel::new_with(Kind::Word.types());
    ch.send(ForkHandle(0), Payload::Word(1)).unwrap();
    ch.send(ForkHandle(0), Payload::Word(2)).unwrap();
    assert_eq!(ch.poll_next(false), None);
    assert_eq!(ch.poll_next(false), None);
    assert_eq!(ch.poll_next(true), Some(Item(ForkHandle(0), Payload::Word(1))));
    assert_eq!(ch.poll_next(true), Some(Item(ForkHandle(0), Payload::Word(2))));
    assert_eq!(ch.poll_next(true), None);
}

#[test]
fn send_on_dead_fork_is_refused() {
    let mut ch = IdChannel::new_with(Kind::Word.types());
    assert_eq!(
        ch.send(ForkHandle(3), Payload::Word(1)),
        Err(IdChannelError::InvalidId(ForkHandle(3)))
    );
    assert_eq!(ch.poll_next(true), None);
}

#[test]
fn aggregate_ready_only_when_all_ready() {
    let all = vec![(ForkHandle(0), SinkPoll::Ready), (ForkHandle(4), SinkPoll::Ready)];
    assert_eq!(aggregate_poll(SinkStage::Ready, &all), ChannelPoll::Ready);
    assert_eq!(aggregate_poll(SinkStage::Flush, &vec![]), ChannelPoll::Ready);
    let pending = vec![(ForkHandle(0), SinkPoll::Ready), (ForkHandle(4), SinkPoll::Pending)];
    assert_eq!(aggregate_poll(SinkStage::Ready, &pending), ChannelPoll::Pending);
    let failed = vec![
        (ForkHandle(0), SinkPoll::Ready),
        (ForkHandle(4), SinkPoll::Failed(ChannelError::Disconnected)),
        (ForkHandle(5), SinkPoll::Pending),
    ];
    assert_eq!(
        aggregate_poll(SinkStage::Close, &failed),
        ChannelPoll::Failed(IdChannelError::Channel(
            SinkStage::Close,
            ForkHandle(4),
            ChannelError::Disconnected
        ))
    );
}

#[test]
fn stage_names() {
    assert_eq!(SinkStage::Ready.name(), "ready");
    assert_eq!(SinkStage::Send.name(), "send");
    assert_eq!(SinkStage::Flush.name(), "flush");
    assert_eq!(SinkStage::Close.name(), "close");
}

#[test]
fn root_fork_outlives_its_endpoint() {
    let mut ch = IdChannel::new_with(Kind::Word.types());
    assert!(!ch.drop_fork(ForkHandle(0)));
    assert_eq!(ch.route_count(), 1);
    assert!(!ch.drop_fork(ForkHandle(8)));
}

#[test]
fn get_fork_checks_type_pair() {
    let mut ch = IdChannel::new_with(Kind::Word.types());
    assert_eq!(ch.get_fork(ForkHandle(0), Kind::Word.types()), Ok(()));
    assert_eq!(
        ch.get_fork(ForkHandle(0), Kind::Byte.types()),
        Err(IdChannelError::TypeMismatch(ForkHandle(0)))
    );
    assert_eq!(ch.get_fork(ForkHandle(6), Kind::Byte.types()), Ok(()));
    assert_eq!(ch.context().get(6), Some(Kind::Byte.types()));
    assert_eq!(ch.route_count(), 2);
    let next = ch.fork(Kind::Flag.types()).unwrap();
    assert_eq!(next, ForkHandle(7));
}

#[test]
fn construct_reports_missing_and_misfit_items() {
    let frames = vec![Item(ForkHandle(0), Payload::Byte(1))];
    assert_eq!(
        construct(&Kind::Byte, &frames, ForkHandle(2)),
        Err(ConstructError::Insufficient { got: 0, expected: 1 })
    );
    assert_eq!(
        construct(&Kind::Word, &frames, ForkHandle(0)),
        Err(ConstructError::Mismatch(ForkHandle(0)))
    );
    let short = vec![Item(
        ForkHandle(0),
        Payload::Handles(vec![ForkHandle(1), ForkHandle(2)]),
    )];
    assert_eq!(
        construct(&Kind::Tuple(vec![Kind::Byte, Kind::Byte, Kind::Byte]), &short, ForkHandle(0)),
        Err(ConstructError::Mismatch(ForkHandle(0)))
    );
    assert_eq!(
        construct(&Kind::Tuple(vec![Kind::Byte, Kind::Byte]), &short, ForkHandle(0)),
        Err(ConstructError::Insufficient { got: 0, expected: 1 })
    );
}

#[test]
fn construct_reads_earliest_frame_of_fork() {
    let frames = vec![
        Item(ForkHandle(1), Payload::Flag(false)),
        Item(ForkHandle(0), Payload::Flag(true)),
        Item(ForkHandle(0), Payload::Flag(false)),
    ];
    assert_eq!(construct(&Kind::Flag, &frames, ForkHandle(0)), Ok(Value::Flag(true)));
}

#[test]
fn conforms_checks_shape() {
    let pair = Kind::Tuple(vec![Kind::Word, Kind::Flag]);
    assert!(conforms(&Value::Tuple(vec![Value::Word(1), Value::Flag(false)]), &pair));
    assert!(!conforms(&Value::Tuple(vec![Value::Flag(false), Value::Word(1)]), &pair));
    assert!(!conforms(&Value::Tuple(vec![Value::Word(1)]), &Kind::Tuple(vec![Kind::Word])));
    let many = Kind::Items(Box::new(Kind::Opt(Box::new(Kind::Byte))));
    assert!(conforms(&Value::Items(vec![Value::Opt(None), Value::Opt(Some(Box::new(Value::Byte(2))))]), &many));
    assert!(!conforms(&Value::Items(vec![Value::Opt(Some(Box::new(Value::Word(2))))]), &many));
    assert!(conforms(&Value::Items(vec![]), &many));
    assert!(!conforms(&Value::Byte(1), &Kind::Word));
}

#[test]
fn dropping_child_forks_frees_one_entry_each() {
    let kind = Kind::Items(Box::new(Kind::Word));
    let value = Value::Items(vec![Value::Word(1), Value::Word(2), Value::Word(3)]);
    let (mut ch, _) = send_root(&kind, &value);
    assert_eq!((ch.context().len(), ch.route_count()), (4, 4));
    assert!(ch.drop_fork(ForkHandle(2)));
    assert_eq!((ch.context().len(), ch.route_count()), (3, 3));
    assert!(!ch.drop_fork(ForkHandle(2)));
    assert!(ch.drop_fork(ForkHandle(3)));
    assert_eq!((ch.context().len(), ch.route_count()), (2, 2));
    assert_eq!(ch.fork(Kind::Word.types()), Some(ForkHandle(3)));
    assert_eq!(ch.fork(Kind::Word.types()), Some(ForkHandle(2)));
    assert_eq!(ch.fork(Kind::Word.types()), Some(ForkHandle(4)));
}

fn shim(debug: &str, display: &str, source: Option<ErrorShim>) -> ErrorShim {
    ErrorShim {
        source: source.map(Box::new),
        debug: debug.to_string(),
        display: display.to_string(),
    }
}

#[test]
fn error_chain_travels_on_its_own_fork() {
    let inner = shim("Io(NotFound)", "file missing", None);
    let outer = shim("Load { .. }", "could not load", Some(inner));
    let (ch, frames) = send_root(&Kind::Error, &Value::Error(outer));
    assert_eq!(
        frames,
        vec![
            Item(ForkHandle(0), Payload::Fork(ForkHandle(1))),
            Item(
                ForkHandle(1),
                Payload::Chain(vec![
                    ("Load { .. }".to_string(), "could not load".to_string()),
                    ("Io(NotFound)".to_string(), "file missing".to_string()),
                ])
            ),
        ]
    );
    assert_eq!(ch.context().len(), 2);
    match construct(&Kind::Error, &frames, ForkHandle(0)) {
        Ok(Value::Error(e)) => {
            assert_eq!(e.display(), "could not load");
            assert_eq!(e.debug(), "Load { .. }");
            let src = e.source().unwrap();
            assert_eq!(src.display(), "file missing");
            assert!(src.source().is_none());
        }
        other => panic!("unexpected {:?}", other),
    }
}

#[test]
fn error_without_chain_frame_is_insufficient() {
    let frames = vec![Item(ForkHandle(0), Payload::Fork(ForkHandle(4)))];
    assert_eq!(
        construct(&Kind::Error, &frames, ForkHandle(0)),
        Err(ConstructError::Insufficient { got: 0, expected: 1 })
    );
    let empty = vec![
        Item(ForkHandle(0), Payload::Fork(ForkHandle(4))),
        Item(ForkHandle(4), Payload::Chain(vec![])),
    ];
    assert_eq!(
        construct(&Kind::Error, &empty, ForkHandle(0)),
        Err(ConstructError::Mismatch(ForkHandle(4)))
    );
}

#[test]
fn shim_chain_round_trips() {
    let e = shim("A", "a", Some(shim("B", "b", Some(shim("C", "c", None)))));
    let levels = e.to_chain();
    assert_eq!(levels.len(), 3);
    assert_eq!(levels[2], ("C".to_string(), "c".to_string()));
    assert_eq!(ErrorShim::from_chain(&levels), Some(e));
    assert_eq!(ErrorShim::from_chain(&vec![]), None);
}

#[test]
fn no_handle_left_means_exhausted() {
    let kind = Kind::Opt(Box::new(Kind::Word));
    let mut ch = IdChannel::new_with(kind.types());
    ch.get_fork(ForkHandle(u32::MAX), Kind::Word.types()).unwrap();
    let value = Value::Opt(Some(Box::new(Value::Word(1))));
    assert_eq!(
        deconstruct(&kind, &value, ForkHandle(0), &mut ch),
        Err(DeconstructError::Exhausted)
    );
    assert_eq!(ch.poll_next(true), None);
    assert!(ch.drop_fork(ForkHandle(u32::MAX)));
    deconstruct(&kind, &value, ForkHandle(0), &mut ch).unwrap();
    assert_eq!(
        drain(&mut ch),
        vec![
            Item(ForkHandle(0), Payload::Opt(VOption::Present(ForkHandle(u32::MAX)))),
            Item(ForkHandle(u32::MAX), Payload::Word(1)),
        ]
    );
}

#[test]
fn channel_poll_checks_routes() {
    let mut ch = IdChannel::new_with(Kind::Word.types());
    let child = ch.fork(Kind::Word.types()).unwrap();
    let ready = vec![(ForkHandle(0), SinkPoll::Ready), (child, SinkPoll::Ready)];
    assert_eq!(ch.poll_ready(SinkStage::Ready, &ready), ChannelPoll::Ready);
    let slow = vec![(ForkHandle(0), SinkPoll::Ready), (child, SinkPoll::Pending)];
    assert_eq!(ch.poll_ready(SinkStage::Flush, &slow), ChannelPoll::Pending);
    let broken = vec![(child, SinkPoll::Failed(ChannelError::Full))];
    assert_eq!(
        ch.poll_ready(SinkStage::Send, &broken),
        ChannelPoll::Failed(IdChannelError::Channel(SinkStage::Send, child, ChannelError::Full))
    );
    let stray = vec![(ForkHandle(0), SinkPoll::Ready), (ForkHandle(9), SinkPoll::Ready)];
    assert_eq!(
        ch.poll_ready(SinkStage::Close, &stray),
        ChannelPoll::Failed(IdChannelError::InvalidId(ForkHandle(9)))
    );
    let partial = vec![(ForkHandle(0), SinkPoll::Ready)];
    assert_eq!(ch.poll_ready(SinkStage::Flush, &partial), ChannelPoll::Pending);
    assert_eq!(ch.poll_ready(SinkStage::Close, &vec![]), ChannelPoll::Pending);
    let twice = vec![(ForkHandle(0), SinkPoll::Ready), (ForkHandle(0), SinkPoll::Ready)];
    assert_eq!(ch.poll_ready(SinkStage::Ready, &twice), ChannelPoll::Pending);
    let both = vec![(child, SinkPoll::Ready), (ForkHandle(0), SinkPoll::Ready), (child, SinkPoll::Ready)];
    assert_eq!(ch.poll_ready(SinkStage::Close, &both), ChannelPoll::Ready);
}

#[test]
fn error_messages() {
    assert_eq!(
        IdChannelError::InvalidId(ForkHandle(999)).message(),
        "underlying channel 999 does not exist"
    );
    assert_eq!(
        IdChannelError::TypeMismatch(ForkHandle(0)).message(),
        "underlying channel 0 has another type"
    );
    assert_eq!(
        IdChannelError::Channel(SinkStage::Flush, ForkHandle(12), ChannelError::Disconnected).message(),
        "send on underlying channel 12 in flush stage failed: disconnected"
    );
    assert_eq!(ChannelError::Full.name(), "full");
}

