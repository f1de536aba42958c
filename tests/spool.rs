use parallel::arguments::{
    check_command, group_inputs, jobs_from, keep_file_line, merge_lists, parse_inputs,
    parse_jobs, parse_max_args, parse_memory, parse_usize, product_size, quote_command,
    quote_inputs, split_groups, spool_records, InputGroup, ListKind, ParseErr,
};

fn strings(items: &[&str]) -> Vec<String> {
    items.iter().map(|s| s.to_string()).collect()
}

fn records_for(args: &[&str]) -> Vec<String> {
    let arguments = strings(args);
    let groups = split_groups(&arguments, 0, ListKind::Inputs);
    let lists = parse_inputs(&groups, false);
    assert!(product_size(&lists).is_some());
    spool_records(&lists, 0).unwrap()
}

#[test]
fn single_list_spools_in_order() {
    assert_eq!(records_for(&["1", "2", "3"]), strings(&["1", "2", "3"]));
}

#[test]
fn max_args_groups_inputs() {
    let arguments = strings(&["a", "b", "c", "d", "e"]);
    let groups = split_groups(&arguments, 0, ListKind::Inputs);
    let lists = parse_inputs(&groups, false);
    let records = spool_records(&lists, 2).unwrap();
    assert_eq!(records, strings(&["a b", "c d", "e"]));
}

#[test]
fn group_count_rounds_up() {
    let inputs = strings(&["1", "2", "3", "4", "5", "6", "7"]);
    assert_eq!(group_inputs(&inputs, 3).len(), 3);
    assert_eq!(group_inputs(&inputs, 7).len(), 1);
    assert_eq!(group_inputs(&inputs, 1).len(), 7);
    assert_eq!(group_inputs(&inputs, 0).len(), 7);
    assert_eq!(group_inputs(&Vec::new(), 4).len(), 0);
}

#[test]
fn two_lists_form_cartesian_product() {
    assert_eq!(records_for(&["1", "2", ":::", "a", "b"]), strings(&["1 a", "1 b", "2 a", "2 b"]));
}

#[test]
fn product_of_four_members() {
    assert_eq!(records_for(&["a", "b", ":::", "c", "d"]), strings(&["a c", "a d", "b c", "b d"]));
}

#[test]
fn three_lists_last_varies_fastest() {
    assert_eq!(
        records_for(&["x", ":::", "1", "2", ":::", "p", "q"]),
        strings(&["x 1 p", "x 1 q", "x 2 p", "x 2 q"])
    );
}

#[test]
fn append_zips_into_previous_list() {
    assert_eq!(records_for(&["A", "B", ":::+", "1", "2"]), strings(&["A 1", "B 2"]));
}

#[test]
fn append_truncates_longer_list() {
    assert_eq!(records_for(&["a", "b", "c", ":::+", "x", "y"]), strings(&["a x", "b y"]));
}

#[test]
fn merge_lists_drains_append() {
    let mut original = strings(&["a", "b", "c"]);
    let mut append = strings(&["x", "y"]);
    merge_lists(&mut original, &mut append);
    assert_eq!(original, strings(&["a x", "b y"]));
    assert!(append.is_empty());
}

#[test]
fn no_inputs_is_an_error() {
    let lists: Vec<Vec<String>> = Vec::new();
    assert_eq!(spool_records(&lists, 0), Err(ParseErr::NoArguments));
}

#[test]
fn product_size_counts_tuples() {
    let lists = vec![strings(&["a", "b"]), strings(&["c", "d", "e"])];
    assert_eq!(product_size(&lists), Some(6));
    let with_empty = vec![strings(&["a"]), Vec::new()];
    assert_eq!(product_size(&with_empty), Some(0));
}

#[test]
fn markers_split_groups() {
    let arguments = strings(&["echo", ":::", "a", "::::", "f.txt", ":::+", "z"]);
    let groups = split_groups(&arguments, 1, ListKind::Inputs);
    let kinds: Vec<ListKind> = groups.iter().map(|g| g.kind).collect();
    assert_eq!(
        kinds,
        vec![ListKind::Inputs, ListKind::Inputs, ListKind::Files, ListKind::InputsAppend]
    );
    assert_eq!(groups[1].members, strings(&["a"]));
    assert_eq!(groups[2].members, strings(&["f.txt"]));
}

#[test]
fn quoting_inputs_as_commands() {
    let groups = vec![InputGroup { kind: ListKind::Inputs, members: strings(&["echo a b"]) }];
    assert_eq!(parse_inputs(&groups, true), vec![strings(&["echo a\\ b"])]);
}

#[test]
fn quote_command_keeps_first_word() {
    assert_eq!(quote_command("echo it's \"x\""), "echo it\\'s\\ \\\"x\\\"");
    assert_eq!(quote_command("ls"), "ls");
    assert_eq!(quote_inputs("a b\\c"), "a\\ b\\\\c");
}

#[test]
fn unterminated_quote_is_rejected() {
    assert_eq!(check_command("echo 'hi"), Err(ParseErr::NonTerminated("echo 'hi".to_string())));
    assert_eq!(check_command("echo \"hi\""), Ok(()));
    assert_eq!(check_command("echo \\'hi"), Ok(()));
}

#[test]
fn file_lines_filter() {
    assert!(keep_file_line("input"));
    assert!(!keep_file_line(""));
    assert!(!keep_file_line("# comment"));
}

#[test]
fn max_args_values() {
    let mut index = 3;
    assert_eq!(parse_max_args("-n3", None, &mut index), Ok(3));
    assert_eq!(index, 3);
    let next = "4".to_string();
    assert_eq!(parse_max_args("-n", Some(&next), &mut index), Ok(4));
    assert_eq!(index, 4);
    assert_eq!(parse_max_args("-n", None, &mut index), Err(ParseErr::MaxArgsNoValue));
    assert_eq!(parse_max_args("-nx", None, &mut index), Err(ParseErr::MaxArgsNaN(4)));
    assert_eq!(parse_usize("+12"), Some(12));
    assert_eq!(parse_usize("1a"), None);
}

#[test]
fn memory_units() {
    assert_eq!(parse_memory("10"), Some(10));
    assert_eq!(parse_memory("2k"), Some(2_000));
    assert_eq!(parse_memory("2K"), Some(2_048));
    assert_eq!(parse_memory("3M"), Some(3 * 1_048_576));
    assert_eq!(parse_memory("1G"), Some(1_073_741_824));
    assert_eq!(parse_memory("1t"), Some(1_000_000_000_000));
    assert_eq!(parse_memory("1P"), Some(1_125_899_906_842_624));
    assert_eq!(parse_memory(""), None);
    assert_eq!(parse_memory("x"), None);
    assert_eq!(parse_memory("99999999P"), None);
}

#[test]
fn job_counts() {
    assert_eq!(jobs_from("4", 8), Ok(4));
    assert_eq!(jobs_from("0", 8), Ok(1));
    assert_eq!(jobs_from("2x", 8), Ok(16));
    assert_eq!(jobs_from("50%", 8), Ok(4));
    assert_eq!(jobs_from("10%", 8), Ok(1));
    assert_eq!(jobs_from("+2", 8), Ok(10));
    assert_eq!(jobs_from("-3", 8), Ok(5));
    assert_eq!(jobs_from("-30", 8), Ok(1));
    assert_eq!(jobs_from("many", 8), Err(ParseErr::JobsNaN("many".to_string())));
}

#[test]
fn job_counts_on_this_machine() {
    let mut index = 0;
    assert_eq!(parse_jobs("-j3", None, &mut index), Ok(3));
    let next = "+0".to_string();
    let cores = parse_jobs("-j", Some(&next), &mut index).unwrap();
    assert!(cores >= 1);
    assert_eq!(index, 1);
    assert_eq!(parse_jobs("-j", None, &mut index), Err(ParseErr::JobsNoValue));
}
