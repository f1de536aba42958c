use parallel::arguments::{parse_inputs, spool_records, split_groups, ListKind};
use parallel::collector::{exit_code, Collector};
use parallel::command::{append_argument, ParallelCommand};
use parallel::tokenizer::tokenize;
use parallel::input_iterator::{count_arguments, Fetch, InputIterator, ETA};

#[test]
fn newline_index() {
    assert_eq!(count_arguments(&b"a\nbc\n\nd".to_vec()), vec![1, 4, 5]);
}

#[test]
fn reader_yields_every_spooled_input() {
    let spool = b"1\n2\n3\n";
    let mut it = InputIterator::new(spool, 3);
    let mut buffer = String::new();
    let mut seen = Vec::new();
    while it.next_value(&mut buffer) == Fetch::Input {
        seen.push(buffer.clone());
    }
    assert_eq!(seen, vec!["1", "2", "3"]);
    assert_eq!(it.next_value(&mut buffer), Fetch::Exhausted);
}

#[test]
fn reader_waits_for_the_rest_of_a_line() {
    let mut it = InputIterator::new(b"ab", 2);
    let mut buffer = String::new();
    assert_eq!(it.next_value(&mut buffer), Fetch::NeedsData);
    it.buffer(b"c\nd");
    assert_eq!(it.next_value(&mut buffer), Fetch::Input);
    assert_eq!(buffer, "abc");
    assert_eq!(it.next_value(&mut buffer), Fetch::NeedsData);
    it.buffer(b"\n");
    assert_eq!(it.next_value(&mut buffer), Fetch::Input);
    assert_eq!(buffer, "d");
    assert_eq!(it.next_value(&mut buffer), Fetch::Exhausted);
}

#[test]
fn reader_replaces_invalid_utf8() {
    let mut it = InputIterator::new(b"a\xffb\n", 1);
    let mut buffer = String::new();
    assert_eq!(it.next_value(&mut buffer), Fetch::Input);
    assert_eq!(buffer, "a\u{fffd}b");
}

#[test]
fn eta_counts_remaining() {
    let mut it = InputIterator::new(b"x\ny\n", 2);
    let mut buffer = String::new();
    assert_eq!(it.next_value(&mut buffer), Fetch::Input);
    it.mark_completed();
    let eta = it.eta();
    assert_eq!(eta.left, 1);
    assert_eq!(eta.time, eta.left * eta.average);
}

#[test]
fn eta_line_format() {
    let eta = ETA { left: 3, time: 7_500_000_000, average: 2_050_000_000 };
    assert_eq!(eta.line(4), "ETA: 7s Left: 3 AVG: 2.05s Completed: 4\n");
    let eta = ETA { left: 0, time: 0, average: 1_230_000_000 };
    assert_eq!(eta.line(10), "ETA: 0s Left: 0 AVG: 1.23s Completed: 10\n");
}

#[test]
fn collector_emits_in_job_order() {
    let mut collector = Collector::new();
    let mut emitted = Vec::new();
    for (job, out) in [(3, "c"), (1, "a"), (4, "d"), (2, "b")] {
        emitted.extend(collector.receive(job, out));
    }
    assert_eq!(emitted, vec!["a", "b", "c", "d"]);
}

#[test]
fn collector_holds_until_predecessor() {
    let mut collector = Collector::new();
    assert!(collector.receive(2, "two").is_empty());
    assert_eq!(collector.receive(1, "one"), vec!["one", "two"]);
    assert_eq!(collector.receive(3, "three"), vec!["three"]);
}

#[test]
fn exit_codes() {
    assert_eq!(exit_code(0, false), 0);
    assert_eq!(exit_code(0, true), 1);
    assert_eq!(exit_code(1, true), 1);
    assert_eq!(exit_code(5, false), 5);
    assert_eq!(exit_code(500, false), 101);
}

#[test]
fn echo_inputs_come_out_in_order() {
    let arguments: Vec<String> = ["1", "2", "3"].iter().map(|s| s.to_string()).collect();
    let groups = split_groups(&arguments, 0, ListKind::Inputs);
    let records = spool_records(&parse_inputs(&groups, false), 0).unwrap();
    let spool: Vec<u8> = records.iter().flat_map(|r| format!("{}\n", r).into_bytes()).collect();
    assert_eq!(spool, b"1\n2\n3\n".to_vec());

    let mut tokens = Vec::new();
    tokenize(&mut tokens, "echo {}", &records).unwrap();
    let mut it = InputIterator::new(&spool, records.len());
    let mut buffer = String::new();
    let mut commands = Vec::new();
    while it.next_value(&mut buffer) == Fetch::Input {
        let job = it.curr_argument.to_string();
        let command = ParallelCommand {
            slot_no: "1",
            job_no: job.as_bytes(),
            job_total: b"3",
            input: &buffer,
            flags: 0,
            command_template: &tokens,
        };
        let mut line = String::new();
        command.build_arguments(&mut line);
        append_argument(&mut line, &tokens, &buffer);
        commands.push((it.curr_argument, line));
    }
    assert_eq!(commands.len(), 3);
    assert_eq!(commands[2], (3, "echo 3".to_string()));

    let mut collector = Collector::new();
    let mut stdout = String::new();
    for (job, line) in commands.into_iter().rev() {
        let output = format!("{}\n", &line[5..]);
        for out in collector.receive(job, output) {
            stdout.push_str(&out);
        }
    }
    assert_eq!(stdout, "1\n2\n3\n");
}
