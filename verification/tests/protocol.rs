use machiavelli::protocol::{assemble, frame_message, Instruction};

#[test]
fn instruction_bytes() {
    assert_eq!(Instruction::Print.to_byte(), 1);
    assert_eq!(Instruction::ClearAndPrint.to_byte(), 2);
    assert_eq!(Instruction::PrintAndReply.to_byte(), 3);
    assert_eq!(Instruction::Reply.to_byte(), 4);
    assert_eq!(Instruction::Close.to_byte(), 5);
    for code in 0..=255u8 {
        match Instruction::from_byte(code) {
            Some(instruction) => assert_eq!(instruction.to_byte(), code),
            None => assert!(code == 0 || code > 5),
        }
    }
}

#[test]
fn instructions_with_payload_and_reply() {
    assert!(Instruction::Print.has_payload());
    assert!(Instruction::ClearAndPrint.has_payload());
    assert!(Instruction::PrintAndReply.has_payload());
    assert!(!Instruction::Reply.has_payload());
    assert!(!Instruction::Close.has_payload());
    assert!(Instruction::PrintAndReply.expects_reply());
    assert!(Instruction::Reply.expects_reply());
    assert!(!Instruction::Print.expects_reply());
    assert!(!Instruction::Close.expects_reply());
}

#[test]
fn empty_message_has_no_chunk() {
    let (count, chunks) = frame_message(&[]).unwrap();
    assert_eq!(count, 0);
    assert!(chunks.is_empty());
}

#[test]
fn short_message_is_one_chunk() {
    let (count, chunks) = frame_message(b"e").unwrap();
    assert_eq!(count, 1);
    assert_eq!(chunks, vec![b"e".to_vec()]);
}

#[test]
fn full_chunks_and_a_rest() {
    let bytes: Vec<u8> = (0..120u8).collect();
    let (count, chunks) = frame_message(&bytes).unwrap();
    assert_eq!(count, 3);
    assert_eq!(chunks[0], (0..50u8).collect::<Vec<u8>>());
    assert_eq!(chunks[1], (50..100u8).collect::<Vec<u8>>());
    assert_eq!(chunks[2], (100..120u8).collect::<Vec<u8>>());
    assert_eq!(assemble(&chunks), bytes);
}

#[test]
fn message_of_full_chunks_only() {
    let bytes: Vec<u8> = vec![7; 100];
    let (count, chunks) = frame_message(&bytes).unwrap();
    assert_eq!(count, 2);
    assert_eq!(chunks.len(), 2);
    assert_eq!(chunks[1].len(), 50);
}

#[test]
fn longest_message() {
    let bytes: Vec<u8> = vec![1; 12750];
    let (count, chunks) = frame_message(&bytes).unwrap();
    assert_eq!(count, 255);
    assert_eq!(chunks.len(), 255);
    assert_eq!(assemble(&chunks), bytes);
}

#[test]
fn message_too_long() {
    let bytes: Vec<u8> = vec![1; 12751];
    let error = frame_message(&bytes).unwrap_err();
    assert_eq!(error.message(), "Stream too long: size: 12751, maximum size: 12750");
    assert_eq!(
        error.to_string(),
        "StreamError: Stream too long: size: 12751, maximum size: 12750"
    );
}

#[test]
fn assemble_takes_short_chunks() {
    let chunks = vec![vec![1, 2], vec![], vec![3]];
    assert_eq!(assemble(&chunks), vec![1, 2, 3]);
}
