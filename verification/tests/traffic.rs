//! Stats, pumps and the server.

use bandwidth_proxy::gate::transfer_nanos;
use bandwidth_proxy::proxy::{
    chunk_size, Direction, Level, Limits, PerDirection, Stats, MAX_CHUNK, MAX_CONNECTIONS,
    MAX_EVENTS, MIN_CHUNK,
};
use bandwidth_proxy::relay::{timeout_text, Destination, Pump, PumpAction, PumpPhase};
use bandwidth_proxy::server::{
    is_disconnect, lookup_cancelled, unresolved, ErrorKind, RelayEnd, ServeAction, ServeEvent,
    Server, ACCEPT_PAUSE_MILLIS,
};

fn limits(enabled: bool, download: u64, upload: u64) -> Limits {
    Limits { enabled, bytes_per_second: PerDirection { download, upload } }
}

fn server(stats: &mut Stats) -> Server {
    Server::open(
        "db:1433".to_string(),
        vec!["10.0.0.1:1433".to_string(), "10.0.0.2:1433".to_string()],
        "127.0.0.1:11433",
        stats,
        5,
    )
    .unwrap()
}

fn last_event(stats: &Stats) -> (Level, String) {
    let events = stats.events();
    let event = events.last().unwrap();
    (event.level, event.text.clone())
}

/// Pumps all of `input`, with no more than `most` bytes per read.
fn forward(input: &[u8], most: usize, limits: Limits, stats: &mut Stats) -> (Vec<u8>, usize) {
    let mut rest = input;
    let mut chunk = Vec::new();
    let mut output = Vec::new();
    let mut writes = 0;
    let (mut pump, mut action) = Pump::begin(Direction::Download, limits);
    loop {
        action = match action {
            PumpAction::Read(size) => {
                let count = size.min(most).min(rest.len());
                chunk = rest[..count].to_vec();
                rest = &rest[count..];
                pump.received(count)
            }
            PumpAction::Pass(count) => {
                assert_eq!(count, chunk.len());
                pump.passed()
            }
            PumpAction::Write(count) => {
                output.extend_from_slice(&chunk[..count]);
                writes += 1;
                pump.written(stats, limits)
            }
            PumpAction::Shutdown => {
                assert_eq!(pump.phase, PumpPhase::Ended);
                return (output, writes);
            }
        }
    }
}

#[test]
fn chunks_hold_about_a_tenth_of_a_second() {
    assert_eq!(chunk_size(None), MAX_CHUNK);
    assert_eq!(chunk_size(Some(1024)), 102);
    assert_eq!(chunk_size(Some(1)), MIN_CHUNK);
    assert_eq!(chunk_size(Some(1024 * 1024)), MAX_CHUNK);
}

#[test]
fn chunk_sizes_at_the_ends_of_their_range() {
    assert_eq!(chunk_size(Some(0)), MIN_CHUNK);
    assert_eq!(chunk_size(Some(649)), 64);
    assert_eq!(chunk_size(Some(650)), 65);
    assert_eq!(chunk_size(Some(40_959)), 4095);
    assert_eq!(chunk_size(Some(40_960)), 4096);
    assert_eq!(chunk_size(Some(u64::MAX)), MAX_CHUNK);
}

#[test]
fn event_history_is_bounded() {
    let mut stats = Stats::default();
    for index in 0..150 {
        stats.event(index, Level::Info, format!("Event {index}"));
    }
    let events = stats.events();
    assert_eq!(events.len(), MAX_EVENTS);
    assert_eq!(events.first().unwrap().text, "Event 50");
    assert_eq!(events.last().unwrap().text, "Event 149");
}

#[test]
fn a_status_is_also_an_event() {
    let mut stats = Stats::default();
    assert!(stats.status().is_none());
    stats.set_status(3, Level::Error, "Down".to_string());
    let event = stats.event(4, Level::Info, "Later".to_string());
    assert_eq!((event.at, event.level, event.text.as_str()), (4, Level::Info, "Later"));
    let status = stats.status().unwrap();
    assert_eq!((status.at, status.level, status.text.as_str()), (3, Level::Error, "Down"));
    let texts: Vec<_> = stats.events().iter().map(|event| event.text.clone()).collect();
    assert_eq!(texts, ["Down", "Later"]);
}

#[test]
fn counters_count() {
    let mut stats = Stats::default();
    assert!(!stats.listening);
    stats.set_listening(true);
    assert!(stats.listening);
    assert!(stats.listening());
    stats.connection_opened();
    stats.connection_opened();
    stats.connection_closed();
    assert_eq!(stats.connections, 1);
    assert_eq!(stats.connections(), 1);
    stats.connection_closed();
    assert_eq!(stats.connections, 0);
    stats.forward(Direction::Upload, 7);
    stats.forward(Direction::Download, 8);
    stats.forward(Direction::Upload, 1);
    assert_eq!(stats.transferred, PerDirection { download: 8, upload: 8 });
    assert_eq!(stats.transferred(), stats.transferred);
    stats.forward(Direction::Upload, u64::MAX);
    assert_eq!(stats.transferred.upload, 7);
}

#[test]
fn directions_have_labels() {
    let labels: Vec<_> = Direction::ALL.iter().map(|direction| direction.label()).collect();
    assert_eq!(labels, ["Download", "Upload"]);
    let rates = PerDirection { download: 1, upload: 2 };
    assert_eq!(*rates.get(Direction::Download), 1);
    assert_eq!(*rates.get(Direction::Upload), 2);
}

#[test]
fn slow_rates_trickle_instead_of_bursting() {
    let limits = limits(true, 1024, 1024);
    let (mut pump, action) = Pump::begin(Direction::Download, limits);
    assert_eq!(action, PumpAction::Read(102));
    assert_eq!(pump.received(102), PumpAction::Pass(102));
    assert!(transfer_nanos(102, 1024) < 200_000_000);
    assert_eq!(pump.passed(), PumpAction::Write(102));
}

#[test]
fn forwards_bytes_and_preserves_half_close() {
    let mut stats = Stats::default();
    let (received, _) = forward(b"test payload", 32, limits(false, 1, 1), &mut stats);
    assert_eq!(received, b"test payload");
    assert_eq!(stats.transferred.download, 12);
}

#[test]
fn every_byte_is_forwarded_whatever_the_reads_give() {
    let input: Vec<u8> = (0..10_000_u32).map(|index| (index % 251) as u8).collect();
    for (most, limits, writes) in [
        (usize::MAX, limits(false, 1, 1), 3),
        (1000, limits(false, 1, 1), 10),
        (usize::MAX, limits(true, 10_240, 1), 10),
    ] {
        let mut stats = Stats::default();
        let (output, count) = forward(&input, most, limits, &mut stats);
        assert_eq!(output, input);
        assert_eq!(count, writes);
        assert_eq!(stats.transferred, PerDirection { download: 10_000, upload: 0 });
    }
    let mut stats = Stats::default();
    let (output, count) = forward(b"", 10, limits(false, 1, 1), &mut stats);
    assert!(output.is_empty());
    assert_eq!(count, 0);
}

#[test]
fn the_next_read_fits_the_new_limits() {
    let mut stats = Stats::default();
    let (mut pump, action) = Pump::begin(Direction::Upload, limits(false, 1, 1));
    assert_eq!(action, PumpAction::Read(4096));
    pump.received(10);
    pump.passed();
    assert_eq!(pump.written(&mut stats, limits(true, 1, 1000)), PumpAction::Read(100));
    assert_eq!(pump.received(0), PumpAction::Shutdown);
    assert_eq!(stats.transferred, PerDirection { download: 0, upload: 10 });
}

#[test]
fn destinations_are_described() {
    let mut target = Destination { name: "db:1433".to_string(), addresses: Vec::new() };
    assert_eq!(target.describe(), "db:1433 ()");
    target.addresses.push("10.0.0.1:1433".to_string());
    assert_eq!(target.describe(), "db:1433 (10.0.0.1:1433)");
    target.addresses.push("[::1]:1433".to_string());
    assert_eq!(target.describe(), "db:1433 (10.0.0.1:1433, [::1]:1433)");
    assert_eq!(
        target.unreachable(&timeout_text()),
        "Could not reach db:1433 (10.0.0.1:1433, [::1]:1433): timed out after 10 s"
    );
    assert_eq!(unresolved("db:1433", "no such host"), "Could not resolve db:1433: no such host");
}

#[test]
fn a_server_opens_on_addresses_other_than_its_own() {
    let mut stats = Stats::default();
    let server = server(&mut stats);
    assert_eq!(server.active, 0);
    assert_eq!(server.target.describe(), "db:1433 (10.0.0.1:1433, 10.0.0.2:1433)");
    assert!(stats.listening);
    assert_eq!(stats.status().unwrap().text, "Listening on 127.0.0.1:11433");
    for addresses in [vec![], vec!["10.0.0.1:1".to_string(), "127.0.0.1:9".to_string()]] {
        let mut stats = Stats::default();
        let opened = Server::open(
            "self:9".to_string(),
            addresses,
            "127.0.0.1:9",
            &mut stats,
            5,
        );
        assert_eq!(
            opened.err().as_deref(),
            Some("self:9 resolves to no address or to the proxy itself")
        );
        assert!(!stats.listening);
        assert!(stats.events().is_empty());
    }
}

#[test]
fn connections_are_bounded() {
    let mut stats = Stats::default();
    let mut server = server(&mut stats);
    for _ in 0..MAX_CONNECTIONS {
        assert_eq!(server.step(&mut stats, 6, ServeEvent::Accepted), ServeAction::Relay);
    }
    assert_eq!(server.step(&mut stats, 7, ServeEvent::Accepted), ServeAction::Refuse);
    assert_eq!(server.active, MAX_CONNECTIONS);
    assert_eq!(
        last_event(&stats),
        (
            Level::Error,
            "Connection limit reached (256). New client disconnected.".to_string()
        )
    );
    let ended = ServeEvent::RelayEnded(RelayEnd::Completed);
    assert_eq!(server.step(&mut stats, 8, ended), ServeAction::Continue);
    assert_eq!(server.step(&mut stats, 9, ServeEvent::Accepted), ServeAction::Relay);
}

#[test]
fn a_client_that_cannot_be_accepted_costs_a_pause() {
    let mut stats = Stats::default();
    let mut server = server(&mut stats);
    let event = ServeEvent::AcceptFailed("too many open files".to_string());
    assert_eq!(
        server.step(&mut stats, 6, event),
        ServeAction::Pause(ACCEPT_PAUSE_MILLIS)
    );
    assert_eq!(
        last_event(&stats),
        (Level::Error, "Could not accept a client: too many open files".to_string())
    );
    assert_eq!(ACCEPT_PAUSE_MILLIS, 100);
}

#[test]
fn only_unexpected_ends_are_logged() {
    for kind in [
        ErrorKind::ConnectionReset,
        ErrorKind::ConnectionAborted,
        ErrorKind::BrokenPipe,
        ErrorKind::UnexpectedEof,
    ] {
        assert!(is_disconnect(kind));
    }
    assert!(!is_disconnect(ErrorKind::Other));
    let ends = [
        (RelayEnd::Completed, None),
        (
            RelayEnd::Failed { kind: ErrorKind::BrokenPipe, error: "broken pipe".to_string() },
            None,
        ),
        (
            RelayEnd::Failed { kind: ErrorKind::Other, error: "timed out".to_string() },
            Some("Connection error: timed out"),
        ),
        (RelayEnd::Crashed("panicked".to_string()), Some("Relay task failed: panicked")),
    ];
    for (end, logged) in ends {
        let mut stats = Stats::default();
        let mut server = server(&mut stats);
        server.step(&mut stats, 6, ServeEvent::Accepted);
        let before = stats.events().len();
        let action = server.step(&mut stats, 7, ServeEvent::RelayEnded(end));
        assert_eq!(action, ServeAction::Continue);
        assert_eq!(server.active, 0);
        match logged {
            Some(text) => assert_eq!(last_event(&stats), (Level::Error, text.to_string())),
            None => assert_eq!(stats.events().len(), before),
        }
    }
}

#[test]
fn a_server_stops_when_asked() {
    let mut stats = Stats::default();
    let mut server = server(&mut stats);
    assert_eq!(server.step(&mut stats, 6, ServeEvent::ShutdownRequested), ServeAction::Stop);
    server.stopped(&mut stats, 8);
    assert!(!stats.listening);
    let status = stats.status().unwrap();
    assert_eq!(
        (status.at, status.level, status.text.as_str()),
        (8, Level::Info, "Proxy stopped. Existing connections were closed.")
    );
    let mut stats = Stats::default();
    lookup_cancelled(&mut stats, 9);
    assert_eq!(stats.status().unwrap().text, "Proxy stopped.");
    assert!(!stats.listening);
}
