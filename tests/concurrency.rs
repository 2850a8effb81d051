use pitop::framing::FrameDecoder;
use pitop::sample::UtilBundle;
use pitop::window::App;

use std::collections::VecDeque;

const CONNECTIONS: usize = 4;
const PER_CONNECTION: u64 = 25;

/// The byte stream of one connection: its id and a message number per line.
fn stream(id: usize) -> Vec<u8> {
    let mut bytes = Vec::new();
    for m in 0..PER_CONNECTION {
        bytes.extend_from_slice(format!("{} {}\n", id, m).as_bytes());
    }
    bytes
}

/// Feeds the connections' chunks in the order `schedule` picks, each through
/// its own decoder into one queue, and merges the queue as the ticks come.
/// Returns the number of merges of a real sample.
fn run(schedule: &dyn Fn(usize) -> usize) -> u64 {
    let streams: Vec<Vec<u8>> = (0..CONNECTIONS).map(stream).collect();
    let mut offsets = vec![0usize; CONNECTIONS];
    let mut decoders: Vec<FrameDecoder> = (0..CONNECTIONS).map(|_| FrameDecoder::new()).collect();
    let mut queue: VecDeque<UtilBundle> = VecDeque::new();
    let mut app = App::with_window(8);
    let mut next = vec![0u64; CONNECTIONS];
    let mut merges = 0u64;
    let mut step = 0usize;
    while offsets.iter().zip(&streams).any(|(o, s)| *o < s.len()) || !queue.is_empty() {
        let id = schedule(step) % CONNECTIONS;
        step += 1;
        let size = 1 + (step * 7 + id) % 9;
        let end = (offsets[id] + size).min(streams[id].len());
        for frame in decoders[id].feed(&streams[id][offsets[id]..end]).unwrap() {
            let text = String::from_utf8(frame).unwrap();
            let mut parts = text.split(' ');
            let mut s = UtilBundle::new();
            s.data_tx = parts.next().unwrap().parse().unwrap();
            s.data_rx = parts.next().unwrap().parse().unwrap();
            queue.push_back(s);
        }
        offsets[id] = end;
        if step % 3 == 0 {
            match queue.pop_front() {
                Some(s) => {
                    let from = s.data_tx as usize;
                    assert_eq!(s.data_rx, next[from]);
                    next[from] += 1;
                    app.tick(Some(s));
                    merges += 1;
                }
                None => app.tick(None),
            }
            assert!(app.network_tx().len() <= 8);
        }
    }
    assert!(next.iter().all(|&n| n == PER_CONNECTION));
    merges
}

#[test]
fn interleaved_connections_merge_each_sample_once() {
    let expected = CONNECTIONS as u64 * PER_CONNECTION;
    assert_eq!(run(&|step| step), expected);
    assert_eq!(run(&|step| CONNECTIONS - 1 - step % CONNECTIONS), expected);
    assert_eq!(run(&|step| (step * step + 3 * step) / 5), expected);
    assert_eq!(run(&|step| step / 50), expected);
}
