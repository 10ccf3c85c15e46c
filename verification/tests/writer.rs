use glomers::writer::{frame, Input, Output, Writer, WriterState};

#[test]
fn frame_appends_one_line_feed() {
    assert_eq!(frame("{\"src\":\"n1\"}".to_string()), "{\"src\":\"n1\"}\n");
    assert_eq!(frame(String::new()), "\n");
}

#[test]
fn a_new_writer_is_open() {
    assert_eq!(Writer::new().phase(), WriterState::Open);
}

#[test]
fn records_are_written_as_lines_in_every_open_state() {
    let mut writer = Writer::new();
    assert_eq!(writer.step(Input::Record("a".to_string())), Output::Write("a\n".to_string()));
    assert_eq!(writer.phase(), WriterState::Open);
    writer.step(Input::Shutdown);
    assert_eq!(writer.step(Input::Record("b".to_string())), Output::Write("b\n".to_string()));
    assert_eq!(writer.phase(), WriterState::Closing);
}

#[test]
fn shutdown_closes_the_queue_once() {
    let mut writer = Writer::new();
    assert_eq!(writer.step(Input::Shutdown), Output::CloseQueue);
    assert_eq!(writer.phase(), WriterState::Closing);
    assert_eq!(writer.step(Input::Shutdown), Output::Wait);
    assert_eq!(writer.phase(), WriterState::Closing);
}

#[test]
fn a_closed_queue_ends_the_writer() {
    let mut writer = Writer::new();
    assert_eq!(writer.step(Input::Closed), Output::Finish);
    assert_eq!(writer.phase(), WriterState::Done);
    let mut writer = Writer::new();
    writer.step(Input::Shutdown);
    writer.step(Input::Record("last".to_string()));
    assert_eq!(writer.step(Input::Closed), Output::Finish);
    assert_eq!(writer.phase(), WriterState::Done);
}

#[test]
fn a_finished_writer_writes_nothing() {
    let mut writer = Writer::new();
    writer.step(Input::Closed);
    assert_eq!(writer.step(Input::Record("late".to_string())), Output::Finish);
    assert_eq!(writer.step(Input::Shutdown), Output::Finish);
    assert_eq!(writer.step(Input::Closed), Output::Finish);
    assert_eq!(writer.phase(), WriterState::Done);
}
