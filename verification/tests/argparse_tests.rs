use runikraft::argparse::{check_redirect, command_analysis, del_escape_ch, get_args, get_single};
use runikraft::param;

fn s(x: &str) -> String {
    String::from(x)
}

#[test]
fn escape_characters_are_removed() {
    assert_eq!(del_escape_ch(&s("a\nb\rc\td")), "abcd");
    assert_eq!(del_escape_ch(&s("")), "");
    assert_eq!(del_escape_ch(&s("\n\n")), "");
    assert_eq!(del_escape_ch(&s("plain text")), "plain text");
}

#[test]
fn escape_removal_leaves_no_escape_behind() {
    let r = del_escape_ch(&s("\t x\ny \r"));
    assert!(!r.contains('\n') && !r.contains('\r') && !r.contains('\t'));
    assert_eq!(r, " xy ");
}

#[test]
fn pipes_split_and_trim() {
    let r = get_single(&s(" ls -l |  wc  | |"));
    assert_eq!(r, vec![s("ls -l"), s("wc"), s(""), s("")]);
    assert_eq!(get_single(&s("")), vec![s("")]);
}

#[test]
fn arguments_keep_empty_pieces() {
    let r = get_args(&s("ls >  1.txt"));
    assert_eq!(r, vec![s("ls"), s(">"), s(""), s("1.txt")]);
}

#[test]
fn redirections_are_found() {
    let (r, w, a) = check_redirect(&s("cat >> 1.txt < 2.txt > 3.txt"));
    assert_eq!(r, "2.txt");
    assert_eq!(w, "3.txt");
    assert_eq!(a, "1.txt");
    let (r, w, a) = check_redirect(&s("pwd"));
    assert_eq!((r, w, a), (s("NONE"), s("NONE"), s("NONE")));
}

#[test]
fn the_last_redirection_counts() {
    let (_, w, _) = check_redirect(&s("echo > a > b"));
    assert_eq!(w, "b");
    let (r, _, _) = check_redirect(&s("sort <"));
    assert_eq!(r, "NONE");
}

#[test]
fn a_command_line_is_taken_apart() {
    let info = command_analysis(&s(" ls > \n 1.txt| pwd|echo \"$USER\"|- 33 | cat >> 1.txt < 2.txt > 3.txt"));
    assert_eq!(info.pipenum, 4);
    assert_eq!(
        info.single_command,
        vec![s("ls >  1.txt"), s("pwd"), s("echo \"$USER\""), s("- 33"), s("cat >> 1.txt < 2.txt > 3.txt")]
    );
    assert_eq!(info.write_filename[0], "");
    assert_eq!(info.write_redirect, vec![1, 0, 0, 0, 1]);
    assert_eq!(info.read_redirect, vec![0, 0, 0, 0, 1]);
    assert_eq!(info.add_redirect, vec![0, 0, 0, 0, 1]);
    assert_eq!(info.read_filename[4], "2.txt");
    assert_eq!(info.write_filename[4], "3.txt");
    assert_eq!(info.add_filename[4], "1.txt");
    assert_eq!(info.read_filename[1], "NONE");
}

#[test]
fn one_command_more_than_pipes() {
    let info = command_analysis(&s("a|b|c"));
    assert_eq!(info.pipenum + 1, info.single_command.len());
    assert_eq!(info.pipenum, 2);
}

#[test]
fn command_info_drops_redirections() {
    let info = command_analysis(&s("cat >> 1.txt < 2.txt > 3.txt | ls >  1.txt | grep -n x"));
    let c0 = info.get_command_info(0);
    assert_eq!(c0.command, "cat");
    assert!(c0.args.is_empty());
    assert_eq!(c0.read_redirect, 1);
    assert_eq!(c0.read_filename, "2.txt");
    assert_eq!(c0.write_filename, "3.txt");
    assert_eq!(c0.add_filename, "1.txt");
    let c1 = info.get_command_info(1);
    assert_eq!(c1.command, "ls");
    assert_eq!(c1.args, vec![s("1.txt")]);
    let c2 = info.get_command_info(2);
    assert_eq!(c2.command, "grep");
    assert_eq!(c2.args, vec![s("-n"), s("x")]);
    assert_eq!(c2.write_redirect, 0);
    assert_eq!(c2.write_filename, "NONE");
}

#[test]
fn command_info_past_the_end() {
    let info = command_analysis(&s("ls"));
    let c = info.get_command_info(3);
    assert_eq!(c.command, "NONE");
    assert!(c.args.is_empty());
    assert_eq!(c.read_filename, "NONE");
    assert_eq!(c.read_redirect, 0);
}

#[test]
fn parameters_keep_control_characters() {
    let info = param::command_analysis(&s("a\tb | c"));
    assert_eq!(info.pipenum, 1);
    assert_eq!(info.single_command, vec![s("a\tb"), s("c")]);
}

#[test]
fn a_dangling_redirection_is_reported() {
    let info = command_analysis(&s("ls -l > | cat"));
    assert!(!info.command_info_ok(0));
    assert!(info.try_command_info(0).is_none());
    assert!(info.command_info_ok(1));
    let c = info.try_command_info(1).unwrap();
    assert_eq!(c.command, "cat");
    assert!(info.command_info_ok(7));
    assert_eq!(info.try_command_info(7).unwrap().command, "NONE");
}
