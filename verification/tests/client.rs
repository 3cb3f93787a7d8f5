use std::collections::BTreeSet;
use telemetry_client::fota::client::{
    enter, flash, jump, parse_discovered, Job, LinkEvent, NodeMode, Request, Step,
};
use telemetry_client::fota::delivery::{Delivery, FotaError, Progress, Turn};
use telemetry_client::fota::image::build_metadata;
use telemetry_client::fota::nodes::{ids_of, mask_of, set_of, short_mask_of};
use telemetry_client::fota::protocol::{crc32, Datagram, DatagramType, Heartbeat, NackCode};
use telemetry_client::fota::transport::Ack;

#[test]
fn mask_of_sets_one_bit_per_node() {
    let s: BTreeSet<u16> = [0u16, 3, 5].into_iter().collect();
    assert_eq!(mask_of(&s), 0b101001);
}

#[test]
fn node_sets_and_lists() {
    let s = set_of(&[5, 0, 3, 5]);
    assert_eq!(ids_of(&s), vec![0, 3, 5]);
    let top: BTreeSet<u16> = [63u16].into_iter().collect();
    assert_eq!(mask_of(&top), 1u64 << 63);
    assert_eq!(short_mask_of(&[0, 31, 40]), (0x8000_0001, true));
    assert_eq!(short_mask_of(&[1]), (2, false));
}

fn ack(code: NackCode, id: u32, node: u16) -> LinkEvent {
    LinkEvent::Reply {
        ack: Some(Ack { code, datagram_id: id, src_node: node }),
    }
}

fn sent_datagram(step: &Step) -> &Datagram {
    match &step.request {
        Request::Send(dg) => dg,
        other => panic!("expected a datagram, got {other:?}"),
    }
}

/// Answers every datagram with an acceptance of each addressed node, and returns what was
/// sent with all reports.
fn run_willing(job: &mut Job, first: Step) -> (Vec<Datagram>, Vec<Progress>, bool) {
    let mut sent: Vec<Datagram> = Vec::new();
    let mut reports = Vec::new();
    let mut waiting: Vec<u16> = Vec::new();
    let mut step = first;
    loop {
        reports.append(&mut step.reports);
        let event = match step.request {
            Request::AskCancel => LinkEvent::Cancel { wanted: false },
            Request::Send(dg) => {
                waiting = (0..64u16).filter(|n| dg.target_node_mask >> n & 1 == 1).collect();
                if dg.dtype == DatagramType::JumpToApp {
                    waiting.clear();
                }
                sent.push(dg);
                LinkEvent::Sent
            }
            Request::SendEnter { .. } => LinkEvent::Sent,
            Request::Listen => match waiting.pop() {
                Some(node) => ack(NackCode::Accepted, sent.last().unwrap().datagram_id, node),
                None => LinkEvent::Reply { ack: None },
            },
            Request::Done => return (sent, reports, true),
            Request::Fail(_) => return (sent, reports, false),
        };
        step = job.on(event);
    }
}

#[test]
fn flash_sends_metadata_chunks_and_jump() {
    let image: Vec<u8> = (0..5000u32).map(|i| (i * 7) as u8).collect();
    let meta = build_metadata(&image, "front_controller", (1, 2), "abc");
    assert_eq!(meta.image_size, 5000);
    assert_eq!(meta.image_crc32, crc32(&image));
    let (mut job, step) = flash(5, &[3, 1], image.clone(), &meta, true).ok().unwrap();
    let (sent, reports, ok) = run_willing(&mut job, step);
    assert!(ok);
    assert_eq!(sent.len(), 5);
    let ids: Vec<u32> = sent.iter().map(|d| d.datagram_id).collect();
    assert_eq!(ids, vec![0, 1, 2, 3, 4]);
    assert_eq!(sent[0].dtype, DatagramType::FirmwareMetadata);
    assert_eq!(sent[0].payload, meta.pack());
    let rebuilt: Vec<u8> = sent[1..4].iter().flat_map(|d| d.payload.clone()).collect();
    assert_eq!(rebuilt, image);
    assert_eq!(sent[1].payload.len(), 2048);
    assert_eq!(sent[3].payload.len(), 904);
    assert_eq!(sent[4].dtype, DatagramType::JumpToApp);
    assert!(sent.iter().all(|d| d.target_node_mask == 0b1010));

    let first = format!("flashing 5000 bytes (crc 0x{:08X}) to nodes [3, 1]", meta.image_crc32);
    assert!(matches!(&reports[0], Progress::Stage(s) if *s == first));
    let stages: Vec<&String> = reports
        .iter()
        .filter_map(|r| match r {
            Progress::Stage(s) => Some(s),
            _ => None,
        })
        .collect();
    assert_eq!(stages[1], "metadata accepted, erasing and writing");
    assert_eq!(stages[2], "image written and CRC verified on all nodes");
    let chunks: Vec<(usize, usize, usize)> = reports
        .iter()
        .filter_map(|r| match r {
            Progress::Chunk { done, total, bytes } => Some((*done, *total, *bytes)),
            _ => None,
        })
        .collect();
    assert_eq!(chunks, vec![(1, 3, 2048), (2, 3, 2048), (3, 3, 904)]);
}

#[test]
fn flash_of_an_empty_image_sends_the_metadata_only() {
    let meta = build_metadata(&[], "", (0, 0), "");
    let (mut job, step) = flash(0, &[2], Vec::new(), &meta, false).ok().unwrap();
    let (sent, _, ok) = run_willing(&mut job, step);
    assert!(ok);
    assert_eq!(sent.len(), 1);
}

#[test]
fn flash_without_nodes_is_refused() {
    let meta = build_metadata(&[1], "", (0, 0), "");
    let e = flash(1, &[], vec![1], &meta, false).err().unwrap();
    assert!(matches!(e, FotaError::NoNodes));
    assert_eq!(e.message(), "specify at least one node");
}

#[test]
fn cancelled_flash_sends_nothing_more() {
    let meta = build_metadata(&[1], "", (0, 0), "");
    let (mut job, step) = flash(1, &[1], vec![1], &meta, false).ok().unwrap();
    assert!(matches!(step.request, Request::AskCancel));
    let step = job.on(LinkEvent::Cancel { wanted: true });
    match step.request {
        Request::Fail(e) => assert_eq!(e.message(), "cancelled"),
        other => panic!("{other:?}"),
    }
}

#[test]
fn laggards_are_resent_to_until_the_retries_are_used_up() {
    let meta = build_metadata(&[1], "", (0, 0), "");
    let (mut job, _) = flash(1, &[0, 3], vec![1], &meta, false).ok().unwrap();
    let step = job.on(LinkEvent::Cancel { wanted: false });
    assert_eq!(sent_datagram(&step).target_node_mask, 0b1001);
    job.on(LinkEvent::Sent);
    let step = job.on(ack(NackCode::Accepted, 0, 0));
    assert!(matches!(step.reports[0], Progress::NodeAck { node: 0 }));
    let step = job.on(ack(NackCode::Accepted, 0, 0));
    assert!(step.reports.is_empty());
    let step = job.on(LinkEvent::Reply { ack: None });
    match &step.reports[0] {
        Progress::Retry { attempt, of, pending } => {
            assert_eq!((*attempt, *of, pending.clone()), (1, 1, vec![3]));
        }
        other => panic!("{other:?}"),
    }
    assert!(matches!(step.request, Request::AskCancel));
    let step = job.on(LinkEvent::Cancel { wanted: false });
    assert_eq!(sent_datagram(&step).target_node_mask, 0b1000);
    job.on(LinkEvent::Sent);
    let step = job.on(ack(NackCode::Incomplete, 0, 3));
    assert!(matches!(
        step.reports[0],
        Progress::NodeNack { node: 3, code: NackCode::Incomplete, transient: true }
    ));
    match step.request {
        Request::Fail(e) => assert_eq!(e.message(), "nodes {3} never acknowledged datagram 0"),
        other => panic!("{other:?}"),
    }
}

#[test]
fn fatal_refusal_ends_the_flash() {
    let meta = build_metadata(&[1], "", (0, 0), "");
    let (mut job, _) = flash(9, &[4], vec![1], &meta, false).ok().unwrap();
    job.on(LinkEvent::Cancel { wanted: false });
    job.on(LinkEvent::Sent);
    let step = job.on(ack(NackCode::Oversized, 7, 4));
    assert!(matches!(step.request, Request::Listen));
    let step = job.on(ack(NackCode::Oversized, 0, 4));
    match step.request {
        Request::Fail(e) => {
            assert_eq!(e.message(), "node 4 rejected datagram 0 with Oversized");
        }
        other => panic!("{other:?}"),
    }
}

#[test]
fn failed_flash_has_told_the_chunks_that_all_accepted() {
    let image = vec![7u8; 5000];
    let meta = build_metadata(&image, "", (0, 0), "");
    let (mut job, first) = flash(1, &[2, 6], image, &meta, true).ok().unwrap();
    let mut step = first;
    let mut chunks = Vec::new();
    let mut sent = Vec::new();
    let mut waiting: Vec<u16> = Vec::new();
    loop {
        for r in &step.reports {
            if let Progress::Chunk { done, .. } = r.clone() {
                chunks.push(done);
            }
        }
        let event = match step.request {
            Request::AskCancel => LinkEvent::Cancel { wanted: false },
            Request::Send(dg) => {
                // The second node falls silent at the third chunk.
                waiting = if dg.datagram_id == 3 { vec![2] } else { vec![2, 6] };
                sent.push(dg.datagram_id);
                LinkEvent::Sent
            }
            Request::Listen => match waiting.pop() {
                Some(node) => ack(NackCode::Accepted, *sent.last().unwrap(), node),
                None => LinkEvent::Reply { ack: None },
            },
            Request::Fail(e) => {
                assert_eq!(e.message(), "nodes {6} never acknowledged datagram 3");
                break;
            }
            other => panic!("{other:?}"),
        };
        step = job.on(event);
    }
    assert_eq!(chunks, vec![1, 2]);
    assert_eq!(sent, vec![0, 1, 2, 3, 3]);
}

#[test]
fn refused_jump_was_sent_once_to_all() {
    let meta = build_metadata(&[1], "", (0, 0), "");
    let (mut job, first) = flash(3, &[2, 6], vec![1], &meta, true).ok().unwrap();
    let mut step = first;
    let mut jumps = Vec::new();
    let mut waiting: Vec<LinkEvent> = Vec::new();
    loop {
        let event = match step.request {
            Request::AskCancel => LinkEvent::Cancel { wanted: false },
            Request::Send(dg) => {
                let id = dg.datagram_id;
                waiting = if dg.dtype == DatagramType::JumpToApp {
                    jumps.push(dg.target_node_mask);
                    vec![ack(NackCode::NoApp, id, 6)]
                } else {
                    vec![ack(NackCode::Accepted, id, 2), ack(NackCode::Accepted, id, 6)]
                };
                LinkEvent::Sent
            }
            Request::Listen => waiting.pop().unwrap_or(LinkEvent::Reply { ack: None }),
            Request::Fail(e) => {
                assert!(matches!(e, FotaError::JumpRefused { .. }));
                break;
            }
            other => panic!("{other:?}"),
        };
        step = job.on(event);
    }
    assert_eq!(jumps, vec![0b100_0100]);
}

#[test]
fn delivery_without_targets_is_refused() {
    let dg = Datagram::new(0, DatagramType::Ack, 0, vec![]);
    let e = Delivery::new(dg, &[], 0).err().unwrap();
    assert!(matches!(e, FotaError::NoTargets));
    assert_eq!(e.message(), "no target nodes given");
}

#[test]
fn delivery_is_done_when_every_target_accepted() {
    let dg = Datagram::new(0, DatagramType::FirmwareChunk, 4, vec![9]);
    let mut d = Delivery::new(dg, &[1, 2], 0).ok().unwrap();
    assert_eq!(d.transmission().target_node_mask, 0b110);
    assert_eq!(d.transmission().payload, vec![9]);
    let accepted = |node| Ack { code: NackCode::Accepted, datagram_id: 4, src_node: node };
    assert!(matches!(d.heard(accepted(2)).1, Turn::Listen));
    assert!(matches!(d.heard(accepted(9)).1, Turn::Listen));
    assert!(matches!(d.heard(accepted(1)).1, Turn::Delivered));
}

#[test]
fn jump_tells_every_refusal() {
    let (mut job, step) = jump(&[1, 2]);
    let dg = sent_datagram(&step);
    assert_eq!((dg.dtype, dg.target_node_mask), (DatagramType::JumpToApp, 0b110));
    assert!(dg.payload.is_empty());
    job.on(LinkEvent::Sent);
    job.on(ack(NackCode::NoApp, 0, 1));
    job.on(ack(NackCode::Accepted, 0, 2));
    job.on(ack(NackCode::Internal, 5, 2));
    job.on(ack(NackCode::BadVector, 0, 2));
    let step = job.on(LinkEvent::Reply { ack: None });
    match step.request {
        Request::Fail(e) => assert_eq!(
            e.message(),
            "jump refused: node 1: no valid app (not flashed or app CRC mismatch); node 2: app \
             vector table invalid (bad stack pointer or reset handler)"
        ),
        other => panic!("{other:?}"),
    }
}

#[test]
fn silent_jump_and_enter_succeed() {
    let (mut job, _) = jump(&[]);
    job.on(LinkEvent::Sent);
    assert!(matches!(job.on(LinkEvent::Reply { ack: None }).request, Request::Done));
    let (mut job, step) = enter(6);
    assert!(matches!(step.request, Request::SendEnter { mask: 6 }));
    assert!(matches!(job.on(LinkEvent::Sent).request, Request::Done));
}

#[test]
fn discovered_nodes_keep_their_order() {
    let hb = |flags: u8| Heartbeat::parse(&[flags, 1, 2, 0, 1, 0, 0, 0]).unwrap();
    let found = parse_discovered(vec![(7, hb(1)), (2, hb(2))]);
    assert_eq!(found.len(), 2);
    assert_eq!((found[0].node, found[0].mode, found[0].app_present), (7, NodeMode::App, false));
    assert_eq!(found[0].version, (1, 2));
    assert_eq!(found[0].app_size, 256);
    assert_eq!(found[1].mode, NodeMode::Bootloader);
    assert!(found[1].app_present);
}
