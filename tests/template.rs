use parallel::arguments::{PIPE_IS_ENABLED, SHELL_ENABLED, SHELL_QUOTE, ION_EXISTS, DASH_EXISTS};
use parallel::command::{append_argument, ParallelCommand};
use parallel::dry::{dry_run_line, shell_quote};
use parallel::paths::{basename, dirname, remove_extension, remove_pattern};
use parallel::shell::{required, set_flags, Kind};
use parallel::tokenizer::{match_token, tokenize, Token, TokenErr};

fn strings(items: &[&str]) -> Vec<String> {
    items.iter().map(|s| s.to_string()).collect()
}

fn tokens_of(template: &str, inputs: &[&str]) -> Result<Vec<Token>, TokenErr> {
    let mut tokens = Vec::new();
    tokenize(&mut tokens, template, &strings(inputs)).map(|_| tokens)
}

fn build(template: &str, input: &str, job: &str, slot: &str, flags: u16) -> String {
    let tokens = tokens_of(template, &[input]).unwrap();
    let command = ParallelCommand {
        slot_no: slot,
        job_no: job.as_bytes(),
        job_total: b"1",
        input,
        flags,
        command_template: &tokens,
    };
    let mut out = String::new();
    command.build_arguments(&mut out);
    if flags & PIPE_IS_ENABLED == 0 {
        append_argument(&mut out, &tokens, input);
    }
    out
}

#[test]
fn tokenizer_placeholders() {
    assert_eq!(tokens_of("{}", &[]), Ok(vec![Token::Placeholder]));
    assert_eq!(tokens_of("{.}", &[]), Ok(vec![Token::RemoveExtension]));
    assert_eq!(tokens_of("{/}", &[]), Ok(vec![Token::Basename]));
    assert_eq!(tokens_of("{//}", &[]), Ok(vec![Token::Dirname]));
    assert_eq!(tokens_of("{/.}", &[]), Ok(vec![Token::BaseAndExt]));
    assert_eq!(tokens_of("{%}", &[]), Ok(vec![Token::Slot]));
    assert_eq!(tokens_of("{#}", &[]), Ok(vec![Token::Job]));
    assert_eq!(tokens_of("{^.gz}", &[]), Ok(vec![Token::RemoveSuffix(".gz".to_string())]));
    assert_eq!(tokens_of("{/^.gz}", &[]), Ok(vec![Token::BaseAndSuffix(".gz".to_string())]));
}

#[test]
fn tokenizer_literals() {
    assert_eq!(tokens_of("foo", &[]), Ok(vec![Token::Argument("foo".to_string())]));
    assert_eq!(
        tokens_of("foo {} bar", &[]),
        Ok(vec![
            Token::Argument("foo ".to_string()),
            Token::Placeholder,
            Token::Argument(" bar".to_string())
        ])
    );
    assert_eq!(
        tokens_of("a{x}b", &[]),
        Ok(vec![
            Token::Argument("a".to_string()),
            Token::Argument("{x}".to_string()),
            Token::Argument("b".to_string())
        ])
    );
    assert_eq!(
        tokens_of("echo {", &[]),
        Ok(vec![Token::Argument("echo ".to_string()), Token::Argument("{".to_string())])
    );
}

#[test]
fn tokenizer_total_and_positions() {
    let inputs = ["a/b.txt", "c/d.tar"];
    assert_eq!(tokens_of("{##}", &inputs), Ok(vec![Token::Argument("2".to_string())]));
    assert_eq!(tokens_of("{2}", &inputs), Ok(vec![Token::Argument("c/d.tar".to_string())]));
    assert_eq!(tokens_of("{1/.}", &inputs), Ok(vec![Token::Argument("b".to_string())]));
    assert_eq!(tokens_of("{1#}", &inputs), Ok(vec![Token::Argument("{1#}".to_string())]));
    assert_eq!(tokens_of("{1##}", &inputs), Ok(vec![Token::Argument("{1##}".to_string())]));
    assert_eq!(tokens_of("{3}", &inputs), Err(TokenErr::OutOfBounds));
    assert_eq!(tokens_of("{0}", &inputs), Err(TokenErr::OutOfBounds));
    assert_eq!(match_token("9x", &strings(&inputs)), Ok(None));
}

#[test]
fn tokenize_keeps_tokens_on_error() {
    let mut tokens = vec![Token::Job];
    assert_eq!(tokenize(&mut tokens, "{5}", &strings(&["a"])), Err(TokenErr::OutOfBounds));
    assert_eq!(tokens, vec![Token::Job]);
}

#[test]
fn path_transforms() {
    assert_eq!(basename("a/b/c.txt"), "c.txt");
    assert_eq!(basename("c.txt"), "c.txt");
    assert_eq!(dirname("a/b/c.txt"), "a/b");
    assert_eq!(dirname("c.txt"), "");
    assert_eq!(remove_extension("a.d/b.tar.gz"), "a.d/b.tar");
    assert_eq!(remove_extension("a.d/b"), "a.d/b");
    assert_eq!(remove_pattern("x.tar.gz", ".gz"), "x.tar");
    assert_eq!(remove_pattern("x.tar", ".gz"), "x.tar");
}

#[test]
fn builds_commands() {
    assert_eq!(build("echo {}", "1", "1", "1", 0), "echo 1");
    assert_eq!(build("echo", "a b", "1", "1", 0), "echo a b");
    assert_eq!(build("cp {} {/.}.bak", "d/f.txt", "1", "1", 0), "cp d/f.txt f.bak");
    assert_eq!(build("job {#} slot {%}", "x", "12", "3", 0), "job 12 slot 3");
    assert_eq!(build("echo {/^.gz}", "p/q.gz", "1", "1", 0), "echo q");
    assert_eq!(build("cat {} {#}", "in", "7", "2", PIPE_IS_ENABLED), "cat  7");
}

#[test]
fn dry_run_lines() {
    let tokens = tokens_of("echo {#}-{%}-{}", &[]).unwrap();
    assert_eq!(dry_run_line(0, 1, 2, "a", &tokens), "echo 1-{SLOT_ID}-a\n");
    assert_eq!(dry_run_line(0, 2, 2, "b", &tokens), "echo 2-{SLOT_ID}-b\n");
    assert_eq!(dry_run_line(0, 12345, 20000, "c", &tokens), "echo 12345-{SLOT_ID}-c\n");
    let plain = tokens_of("echo", &[]).unwrap();
    assert_eq!(dry_run_line(SHELL_QUOTE, 1, 1, "a;b", &plain), "echo\\ a\\;b\n");
}

#[test]
fn shell_quoting() {
    assert_eq!(shell_quote("ls"), None);
    assert_eq!(shell_quote("a b$"), Some("a\\ b\\$".to_string()));
}

#[test]
fn shell_requirement() {
    let plain = tokens_of("echo {}", &[]).unwrap();
    let piped = tokens_of("echo {} | wc", &[]).unwrap();
    assert!(!required(Kind::Tokens(&plain)));
    assert!(required(Kind::Tokens(&piped)));
    assert!(required(Kind::Input("a;b")));
    assert!(!required(Kind::Input("ab")));
    let mut flags = 0u16;
    set_flags(&mut flags, &plain, true, true);
    assert_eq!(flags, 0);
    set_flags(&mut flags, &piped, false, true);
    assert_eq!(flags, SHELL_ENABLED | DASH_EXISTS);
    let mut flags = 0u16;
    set_flags(&mut flags, &piped, true, false);
    assert_eq!(flags, SHELL_ENABLED | ION_EXISTS);
}
