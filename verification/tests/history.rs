use ggpo::game_input::{copy_bits, make_blank, same_bits, GameInput, NULL_FRAME};
use ggpo::input_queue::InputQueue;

#[test]
fn empty_history() {
    let q = InputQueue::new(2);
    assert_eq!(q.input_size(), 2);
    assert_eq!(q.last_confirmed_frame(), NULL_FRAME);
    assert_eq!(q.last_predicted_frame(), NULL_FRAME);
    assert_eq!(q.first_incorrect_frame(), NULL_FRAME);
    assert_eq!(q.confirmed_input(0), None);
    assert_eq!(q.confirmed_input(-1), None);
}

#[test]
fn confirmed_inputs_are_handed_out_as_they_came() {
    let mut q = InputQueue::new(2);
    assert_eq!(q.confirm(&vec![1, 1]), Some(0));
    assert_eq!(q.confirm(&vec![2, 2]), Some(1));
    assert_eq!(q.last_confirmed_frame(), 1);
    assert_eq!(q.input(0), vec![1, 1]);
    assert_eq!(q.input(1), vec![2, 2]);
    assert_eq!(q.last_predicted_frame(), 1);
    assert_eq!(q.confirmed_input(1), Some(vec![2, 2]));
    assert_eq!(q.confirmed_input(2), None);
}

#[test]
fn a_guess_repeats_the_most_recent_input() {
    let mut q = InputQueue::new(1);
    assert_eq!(q.input(0), vec![0]);
    q.confirm(&vec![0]);
    q.confirm(&vec![7]);
    assert_eq!(q.input(2), vec![7]);
    assert_eq!(q.input(5), vec![7]);
    assert_eq!(q.last_confirmed_frame(), 1);
    assert_eq!(q.last_predicted_frame(), 5);
}

#[test]
fn a_frame_before_the_first_records_nothing() {
    let mut q = InputQueue::new(1);
    assert_eq!(q.input(NULL_FRAME), vec![0]);
    q.confirm(&vec![4]);
    assert_eq!(q.input(-7), vec![4]);
    assert_eq!(q.last_predicted_frame(), 0);
}

#[test]
fn a_right_guess_marks_nothing() {
    let mut q = InputQueue::new(1);
    q.confirm(&vec![3]);
    assert_eq!(q.input(1), vec![3]);
    assert_eq!(q.confirm(&vec![3]), Some(1));
    assert_eq!(q.first_incorrect_frame(), NULL_FRAME);
    assert_eq!(q.last_predicted_frame(), 1);
}

#[test]
fn a_wrong_guess_marks_its_frame() {
    let mut q = InputQueue::new(1);
    q.confirm(&vec![3]);
    assert_eq!(q.input(1), vec![3]);
    assert_eq!(q.input(2), vec![3]);
    assert_eq!(q.input(3), vec![3]);
    assert_eq!(q.confirm(&vec![3]), Some(1));
    assert_eq!(q.confirm(&vec![4]), Some(2));
    assert_eq!(q.first_incorrect_frame(), 2);
    // a later wrong guess does not move the mark
    assert_eq!(q.confirm(&vec![5]), Some(3));
    assert_eq!(q.first_incorrect_frame(), 2);
    q.settle();
    assert_eq!(q.first_incorrect_frame(), NULL_FRAME);
    assert_eq!(q.last_confirmed_frame(), 3);
}

#[test]
fn an_input_of_the_wrong_length_is_refused() {
    let mut q = InputQueue::new(2);
    assert_eq!(q.confirm(&vec![1]), None);
    assert_eq!(q.confirm(&vec![1, 2, 3]), None);
    assert_eq!(q.last_confirmed_frame(), NULL_FRAME);
    assert_eq!(q.confirm(&vec![1, 2]), Some(0));
}

#[test]
fn the_confirmed_watermark_never_goes_down() {
    let mut q = InputQueue::new(1);
    let mut last = q.last_confirmed_frame();
    for step in 0..40u8 {
        match step % 4 {
            0 => {
                q.confirm(&vec![step]);
            }
            1 => {
                q.input((step / 2) as i32);
            }
            2 => {
                q.extend_to((step / 3) as usize);
            }
            _ => {
                q.settle();
            }
        }
        assert!(q.last_confirmed_frame() >= last);
        assert!(q.last_predicted_frame() >= q.last_confirmed_frame());
        last = q.last_confirmed_frame();
    }
}

#[test]
fn extend_to_repeats_the_last_input() {
    let mut q = InputQueue::new(1);
    q.extend_to(2);
    assert_eq!(q.last_confirmed_frame(), 1);
    assert_eq!(q.confirmed_input(0), Some(vec![0]));
    q.confirm(&vec![9]);
    q.extend_to(5);
    assert_eq!(q.last_confirmed_frame(), 4);
    assert_eq!(q.confirmed_input(3), Some(vec![9]));
    assert_eq!(q.confirmed_input(4), Some(vec![9]));
    q.extend_to(2);
    assert_eq!(q.last_confirmed_frame(), 4);
}

#[test]
fn a_guess_that_is_asked_again_is_made_anew() {
    let mut q = InputQueue::new(1);
    q.confirm(&vec![1]);
    assert_eq!(q.input(2), vec![1]);
    // frame 1 is confirmed otherwise than guessed
    q.confirm(&vec![2]);
    assert_eq!(q.first_incorrect_frame(), 1);
    q.settle();
    // the replay asks for frame 2 again and gets the new guess
    assert_eq!(q.input(2), vec![2]);
    q.confirm(&vec![2]);
    assert_eq!(q.first_incorrect_frame(), NULL_FRAME);
}

#[test]
fn byte_strings() {
    assert_eq!(make_blank(3), vec![0, 0, 0]);
    assert_eq!(make_blank(0), Vec::<u8>::new());
    assert_eq!(copy_bits(&vec![1, 2, 3]), vec![1, 2, 3]);
    assert!(same_bits(&vec![1, 2], &vec![1, 2]));
    assert!(!same_bits(&vec![1, 2], &vec![1, 3]));
    assert!(!same_bits(&vec![1, 2], &vec![1, 2, 3]));
    assert!(same_bits(&vec![], &vec![]));
    let input = GameInput::new(4, &vec![5, 6]);
    assert_eq!(input.frame, 4);
    assert_eq!(input.bits, vec![5, 6]);
    let copy = input.duplicate();
    assert_eq!(copy.frame, 4);
    assert_eq!(copy.bits, vec![5, 6]);
}
