use bluez_buffer::filedevice::{ReadResult, Reader};
use bluez_buffer::filedevice_bluez::read_timeout_millis;
use bluez_buffer::filereader_buffered::{read_outcome, BufferedReader};

/// Plays back a list of answers, each the bytes to put into the slice and the result to return,
/// and records the length of every slice it was given. Ends when the list does.
struct Script {
    answers: Vec<(Vec<u8>, Result<ReadResult, String>)>,
    asked: Vec<usize>,
}

impl Script {
    fn new(answers: Vec<(Vec<u8>, Result<ReadResult, String>)>) -> Self {
        Script { answers, asked: vec![] }
    }
}

impl Reader for Script {
    type Error = String;

    fn read(&mut self, data: &mut [u8]) -> Result<ReadResult, String> {
        assert!(data.iter().all(|byte| *byte == 0));
        let turn = self.asked.len();
        self.asked.push(data.len());
        if turn >= self.answers.len() {
            return Ok(ReadResult::EndOfFile(0));
        }
        let (bytes, result) = self.answers[turn].clone();
        let count = bytes.len().min(data.len());
        data[..count].copy_from_slice(&bytes[..count]);
        result
    }
}

/// Lends a script out, so that what it recorded can be looked at after the reads.
struct Lent<'a>(&'a mut Script);

impl<'a> Reader for Lent<'a> {
    type Error = String;

    fn read(&mut self, data: &mut [u8]) -> Result<ReadResult, String> {
        self.0.read(data)
    }
}

#[test]
fn new_reader_is_empty() {
    let reader = BufferedReader::new(Script::new(vec![]), 48);
    assert_eq!(reader.buffered_bytes(), 0);
    assert_eq!(reader.capacity(), 48);
}

#[test]
fn refills_ask_for_the_request_or_half_the_capacity() {
    let mut script = Script::new(vec![
        (vec![1, 2], Ok(ReadResult::Complete(2))),
        (vec![3], Ok(ReadResult::Complete(1))),
        (vec![4; 20], Ok(ReadResult::Complete(12))),
    ]);
    let mut reader = BufferedReader::new(Lent(&mut script), 20);
    let mut buf = [0u8; 14];
    assert_eq!(reader.read(&mut buf), Ok(ReadResult::Complete(14)));
    assert_eq!(buf, [1, 2, 3, 4, 4, 4, 4, 4, 4, 4, 4, 4, 4, 4]);
    assert_eq!(reader.buffered_bytes(), 0);
    // 14 bytes lack, then 12, then 11
    assert_eq!(script.asked, vec![14, 12, 11]);

    let mut script = Script::new(vec![(vec![5; 10], Ok(ReadResult::Complete(10)))]);
    let mut reader = BufferedReader::new(Lent(&mut script), 20);
    let mut buf = [0u8; 3];
    assert_eq!(reader.read(&mut buf), Ok(ReadResult::Complete(3)));
    assert_eq!(reader.buffered_bytes(), 7);
    assert_eq!(script.asked, vec![10]);

    let mut script = Script::new(vec![(vec![5; 20], Ok(ReadResult::EndOfFile(20)))]);
    let mut reader = BufferedReader::new(Lent(&mut script), 20);
    let mut buf = [0u8; 30];
    assert_eq!(reader.read(&mut buf), Ok(ReadResult::EndOfFile(20)));
    assert_eq!(script.asked, vec![20]);
}

#[test]
fn counts_beyond_the_slice_are_cut() {
    let mut reader = BufferedReader::new(
        Script::new(vec![(vec![9, 8, 7, 6], Ok(ReadResult::Complete(1000)))]),
        4,
    );
    let mut buf = [0u8; 1];
    assert_eq!(reader.read(&mut buf), Ok(ReadResult::Complete(1)));
    assert_eq!(buf, [9]);
    // Half the capacity was asked for, so that is all there is
    assert_eq!(reader.buffered_bytes(), 1);
    assert_eq!(reader.read(&mut buf), Ok(ReadResult::Complete(1)));
    assert_eq!(buf, [8]);
}

#[test]
fn short_reads_keep_the_tail_of_the_slice() {
    let mut reader = BufferedReader::new(
        Script::new(vec![
            (vec![1], Ok(ReadResult::Complete(1))),
            (vec![2, 3], Ok(ReadResult::Timeout(2))),
        ]),
        16,
    );
    let mut buf = [77u8; 5];
    assert_eq!(reader.read(&mut buf), Ok(ReadResult::Timeout(3)));
    assert_eq!(buf, [1, 2, 3, 77, 77]);
    assert_eq!(reader.buffered_bytes(), 0);
    assert_eq!(reader.read(&mut buf), Ok(ReadResult::EndOfFile(0)));
    assert_eq!(buf, [1, 2, 3, 77, 77]);
}

#[test]
fn timeout_and_end_are_hidden_while_there_is_enough() {
    let mut reader = BufferedReader::new(
        Script::new(vec![
            (vec![1, 2, 3, 4], Ok(ReadResult::Timeout(4))),
            (vec![5, 6, 7, 8], Ok(ReadResult::EndOfFile(4))),
        ]),
        8,
    );
    let mut buf = [0u8; 3];
    assert_eq!(reader.read(&mut buf), Ok(ReadResult::Complete(3)));
    assert_eq!(buf, [1, 2, 3]);
    assert_eq!(reader.read(&mut buf), Ok(ReadResult::Complete(3)));
    assert_eq!(buf, [4, 5, 6]);
    assert_eq!(reader.read(&mut buf), Ok(ReadResult::EndOfFile(2)));
    assert_eq!(buf, [7, 8, 6]);
}

#[test]
fn errors_of_the_inner_reader_pass_through() {
    let mut reader = BufferedReader::new(
        Script::new(vec![
            (vec![1, 2, 3], Ok(ReadResult::Complete(3))),
            (vec![9, 9], Err(String::from("unplugged"))),
            (vec![4, 5], Ok(ReadResult::Complete(2))),
        ]),
        8,
    );
    let mut buf = [0u8; 2];
    assert_eq!(reader.read(&mut buf), Ok(ReadResult::Complete(2)));
    assert_eq!(reader.buffered_bytes(), 1);
    // The byte that was buffered goes into the slice before the error
    let mut buf = [0u8; 4];
    assert_eq!(reader.read(&mut buf), Err(String::from("unplugged")));
    assert_eq!(buf, [3, 0, 0, 0]);
    assert_eq!(reader.buffered_bytes(), 0);
    // The reader can be used again
    let mut buf = [0u8; 2];
    assert_eq!(reader.read(&mut buf), Ok(ReadResult::Complete(2)));
    assert_eq!(buf, [4, 5]);
}

#[test]
fn empty_completes_are_asked_again() {
    let mut script = Script::new(vec![
        (vec![], Ok(ReadResult::Complete(0))),
        (vec![], Ok(ReadResult::Complete(0))),
        (vec![6, 7], Ok(ReadResult::Complete(2))),
    ]);
    let mut reader = BufferedReader::new(Lent(&mut script), 4);
    let mut buf = [0u8; 2];
    assert_eq!(reader.read(&mut buf), Ok(ReadResult::Complete(2)));
    assert_eq!(buf, [6, 7]);
    assert_eq!(script.asked, vec![2, 2, 2]);
}

#[test]
fn empty_requests_read_ahead_once() {
    let mut script = Script::new(vec![(vec![1, 2, 3, 4], Ok(ReadResult::EndOfFile(4)))]);
    let mut reader = BufferedReader::new(Lent(&mut script), 8);
    let mut none: [u8; 0] = [];
    assert_eq!(reader.read(&mut none), Ok(ReadResult::Complete(0)));
    assert_eq!(reader.buffered_bytes(), 4);
    // With something buffered the inner reader is left alone
    assert_eq!(reader.read(&mut none), Ok(ReadResult::Complete(0)));
    assert_eq!(reader.buffered_bytes(), 4);
    assert_eq!(script.asked, vec![4]);
}

#[test]
fn without_room_an_empty_request_asks_nothing() {
    let mut script = Script::new(vec![(vec![1], Ok(ReadResult::Complete(1)))]);
    let mut reader = BufferedReader::new(Lent(&mut script), 0);
    let mut none: [u8; 0] = [];
    assert_eq!(reader.read(&mut none), Ok(ReadResult::Complete(0)));
    assert_eq!(reader.capacity(), 0);
    assert!(script.asked.is_empty());
}

#[test]
fn reads_of_any_size_deliver_the_stream_in_order() {
    let stream: Vec<u8> = (0..60).collect();
    let mut answers = vec![];
    let mut at: usize = 0;
    for size in [5usize, 1, 8, 3, 8, 8, 2, 7, 8, 4, 6] {
        answers.push((stream[at..at + size].to_vec(), Ok(ReadResult::Complete(size))));
        at += size;
    }
    assert_eq!(at, 60);
    // Half the capacity is the largest burst
    let mut reader = BufferedReader::new(Script::new(answers), 16);
    let mut got = vec![];
    for size in [1usize, 2, 3, 1, 4, 2, 5, 1, 8, 3, 7, 2, 6, 4, 8] {
        let mut buf = vec![0u8; size];
        match reader.read(&mut buf).unwrap() {
            ReadResult::Complete(n) => {
                assert_eq!(n, size);
                got.extend_from_slice(&buf);
            }
            ReadResult::EndOfFile(n) => {
                assert!(n < size);
                assert_eq!(reader.buffered_bytes(), 0);
                got.extend_from_slice(&buf[..n]);
            }
            ReadResult::Timeout(_) => panic!("no answer was a timeout"),
        }
        assert!(reader.buffered_bytes() <= reader.capacity());
        assert_eq!(&got[..], &stream[..got.len()]);
    }
    assert_eq!(got.len(), 57);
    assert_eq!(reader.buffered_bytes(), 3);
}

#[test]
fn a_refill_cuts_what_does_not_fit() {
    // Two bytes are asked for, half the capacity, and six are reported
    let mut reader = BufferedReader::new(
        Script::new(vec![(vec![1, 2, 3, 4, 5, 6], Ok(ReadResult::Timeout(6)))]),
        4,
    );
    let mut none: [u8; 0] = [];
    assert_eq!(reader.read(&mut none), Ok(ReadResult::Complete(0)));
    assert_eq!(reader.buffered_bytes(), 2);
    let mut buf = [0u8; 2];
    assert_eq!(reader.read(&mut buf), Ok(ReadResult::Complete(2)));
    assert_eq!(buf, [1, 2]);
}

#[test]
fn portions_add_up_to_the_whole() {
    let answers = vec![(vec![1, 2, 3, 4, 5, 6, 7, 8], Ok(ReadResult::Complete(8)))];
    let mut one = BufferedReader::new(Script::new(answers.clone()), 16);
    let mut two = BufferedReader::new(Script::new(answers), 16);
    let mut none: [u8; 0] = [];
    assert_eq!(one.read(&mut none), Ok(ReadResult::Complete(0)));
    assert_eq!(two.read(&mut none), Ok(ReadResult::Complete(0)));
    assert_eq!(one.buffered_bytes(), 8);

    let mut first = [0u8; 2];
    let mut second = [0u8; 3];
    assert_eq!(one.read(&mut first), Ok(ReadResult::Complete(2)));
    assert_eq!(one.read(&mut second), Ok(ReadResult::Complete(3)));
    let mut whole = [0u8; 5];
    assert_eq!(two.read(&mut whole), Ok(ReadResult::Complete(5)));
    assert_eq!(first, [1, 2]);
    assert_eq!(second, [3, 4, 5]);
    assert_eq!(whole, [1, 2, 3, 4, 5]);
    assert_eq!(one.buffered_bytes(), two.buffered_bytes());
}

#[test]
fn what_a_refill_brings_comes_out_again() {
    let mut reader = BufferedReader::new(
        Script::new(vec![(vec![4, 5, 6], Ok(ReadResult::EndOfFile(3)))]),
        8,
    );
    let mut buf = [9u8; 6];
    assert_eq!(reader.read(&mut buf), Ok(ReadResult::EndOfFile(3)));
    assert_eq!(buf, [4, 5, 6, 9, 9, 9]);
    assert_eq!(reader.buffered_bytes(), 0);
}

#[test]
fn equal_readers_do_the_same() {
    let answers = vec![
        (vec![1, 2, 3], Ok(ReadResult::Complete(3))),
        (vec![4], Ok(ReadResult::Timeout(1))),
    ];
    let mut one = BufferedReader::new(Script::new(answers.clone()), 10);
    let mut two = BufferedReader::new(Script::new(answers), 10);
    for size in [2usize, 4, 1] {
        let mut buf_one = vec![0u8; size];
        let mut buf_two = vec![0u8; size];
        assert_eq!(one.read(&mut buf_one), two.read(&mut buf_two));
        assert_eq!(buf_one, buf_two);
        assert_eq!(one.buffered_bytes(), two.buffered_bytes());
    }
}

#[test]
fn buffered_readers_can_be_stacked() {
    let inner = BufferedReader::new(
        Script::new(vec![
            (vec![1, 2, 3], Ok(ReadResult::Complete(3))),
            (vec![4, 5], Ok(ReadResult::EndOfFile(2))),
        ]),
        4,
    );
    let mut reader = BufferedReader::new(inner, 6);
    let mut buf = [0u8; 2];
    assert_eq!(reader.read(&mut buf), Ok(ReadResult::Complete(2)));
    assert_eq!(buf, [1, 2]);
    assert_eq!(reader.read(&mut buf), Ok(ReadResult::Complete(2)));
    assert_eq!(buf, [3, 4]);
    assert_eq!(reader.read(&mut buf), Ok(ReadResult::EndOfFile(1)));
    assert_eq!(buf, [5, 4]);
}

#[test]
fn outcome_of_a_read() {
    assert_eq!(read_outcome(4, 4, ReadResult::EndOfFile(4)), Some(ReadResult::Complete(4)));
    assert_eq!(read_outcome(4, 4, ReadResult::Timeout(1)), Some(ReadResult::Complete(4)));
    assert_eq!(read_outcome(4, 3, ReadResult::EndOfFile(1)), Some(ReadResult::EndOfFile(3)));
    assert_eq!(read_outcome(4, 3, ReadResult::Timeout(0)), Some(ReadResult::Timeout(3)));
    assert_eq!(read_outcome(4, 3, ReadResult::Complete(2)), None);
    assert_eq!(read_outcome(0, 0, ReadResult::Complete(0)), Some(ReadResult::Complete(0)));
}

#[test]
fn timeout_is_two_chunks() {
    assert_eq!(read_timeout_millis(1024, 44100), 46);
    assert_eq!(read_timeout_millis(44100, 44100), 2000);
    assert_eq!(read_timeout_millis(1, 48000), 0);
    assert_eq!(read_timeout_millis(0, 1), 0);
}
