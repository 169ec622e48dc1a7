use pdf_oxide::cli::commands::{
    check_merge_inputs, compressed_file_name, image_file_prefix, pages_to_remove, piped_input_path, resolve_pages,
    search_page_range, split_file_name,
};
use pdf_oxide::cli::pages::{parse_page_ranges, parse_usize};
use pdf_oxide::cli::repl::{
    classify_command, opened_message, parse_command, required_argument, text_eq, CommandKind, DocTarget, ReplState,
};
use pdf_oxide::error::Error;

fn message(e: Error) -> String {
    match e {
        Error::InvalidOperation(m) => m,
    }
}

#[test]
fn test_parse_page_ranges_mixed() {
    assert_eq!(parse_page_ranges("1-3,7,10-12").unwrap(), vec![0, 1, 2, 6, 9, 10, 11]);
    assert_eq!(parse_page_ranges(" 2 , 4 - 5 ").unwrap(), vec![1, 3, 4]);
}

#[test]
fn test_parse_page_ranges_errors() {
    assert_eq!(parse_page_ranges("0").unwrap_err(), "Page numbers start at 1");
    assert_eq!(parse_page_ranges("5-2").unwrap_err(), "Invalid range: 5-2");
    assert_eq!(parse_page_ranges("x").unwrap_err(), "Invalid page number: 'x'");
    assert_eq!(parse_page_ranges("").unwrap_err(), "No pages specified");
    assert_eq!(parse_page_ranges(" , ").unwrap_err(), "No pages specified");
}

#[test]
fn test_parse_usize_like_std() {
    assert_eq!(parse_usize("42"), Some(42));
    assert_eq!(parse_usize("+7"), Some(7));
    assert_eq!(parse_usize(""), None);
    assert_eq!(parse_usize("-1"), None);
    assert_eq!(parse_usize("4a"), None);
}

#[test]
fn test_resolve_pages_all_or_named() {
    assert_eq!(resolve_pages(None, 3).unwrap(), vec![0, 1, 2]);
    assert_eq!(resolve_pages(Some("2"), 3).unwrap(), vec![1]);
    assert_eq!(message(resolve_pages(Some("0"), 3).unwrap_err()), "Page numbers start at 1");
}

#[test]
fn test_search_page_range() {
    assert_eq!(search_page_range(None, 9).unwrap(), None);
    assert_eq!(search_page_range(Some("7,2-3"), 9).unwrap(), Some((1, 6)));
    assert!(search_page_range(Some("a"), 9).is_err());
}

#[test]
fn test_pages_to_remove_last_first() {
    assert_eq!(pages_to_remove(4, 1), vec![3, 2, 0]);
    assert_eq!(pages_to_remove(1, 0), Vec::<usize>::new());
}

#[test]
fn test_output_file_names() {
    assert_eq!(compressed_file_name("doc", "pdf"), "doc_compressed.pdf");
    assert_eq!(split_file_name("doc", 0), "doc_page_1.pdf");
    assert_eq!(split_file_name("doc", 11), "doc_page_12.pdf");
    assert_eq!(image_file_prefix("scan", 9), "scan_p10");
}

#[test]
fn test_merge_needs_two_files() {
    assert!(check_merge_inputs(2).is_ok());
    assert_eq!(message(check_merge_inputs(1).unwrap_err()), "Merge requires at least 2 PDF files");
}

#[test]
fn test_piped_input_path() {
    assert_eq!(piped_input_path(Some("  a.pdf \n")).unwrap(), "a.pdf");
    assert_eq!(message(piped_input_path(Some("   ")).unwrap_err()), "No file path provided on stdin");
    assert_eq!(message(piped_input_path(None).unwrap_err()), "No input received on stdin");
}

#[test]
fn test_parse_command_words_and_args() {
    let c = parse_command("  OPEN  /tmp/My File.pdf  ");
    assert_eq!(c.kind, CommandKind::Open);
    assert_eq!(c.argument, "/tmp/My File.pdf");
    assert_eq!(parse_command("q").kind, CommandKind::Exit);
    assert_eq!(parse_command("   ").kind, CommandKind::Empty);
    let u = parse_command("Frobnicate now");
    assert_eq!(u.kind, CommandKind::Unknown);
    assert_eq!(u.argument, "frobnicate");
    assert_eq!(classify_command("grep", "x").kind, CommandKind::Search);
    assert_eq!(classify_command("img", "").kind, CommandKind::Images);
}

#[test]
fn test_repl_prompt_and_close() {
    let mut state: ReplState<u32> = ReplState::new(None, false);
    assert_eq!(state.prompt(), "pdf-oxide> ");
    assert_eq!(state.close(), "No PDF is currently open.");
    assert_eq!(message(state.ensure_doc().unwrap_err()), "No PDF loaded. Use 'open <file>' first.");
    state.set_document(7, "/tmp/a.pdf".to_string());
    assert_eq!(state.prompt(), "pdf-oxide [a.pdf]> ");
    assert_eq!(*state.ensure_doc().unwrap(), 7);
    assert_eq!(state.close(), "Closed /tmp/a.pdf");
    assert!(state.current_doc.is_none());
    assert_eq!(state.prompt(), "pdf-oxide> ");
}

#[test]
fn test_repl_targets() {
    let mut state: ReplState<u32> = ReplState::new(Some("pw".to_string()), true);
    assert!(matches!(state.with_doc("other.pdf").unwrap(), DocTarget::Open(p) if p == "other.pdf"));
    assert!(state.with_doc("").is_err());
    assert_eq!(
        message(state.target_file("").unwrap_err()),
        "No PDF loaded. Use 'open <file>' or provide a file path."
    );
    state.set_document(1, "x.pdf".to_string());
    assert!(matches!(state.with_doc("").unwrap(), DocTarget::Current));
    assert_eq!(state.target_file("").unwrap(), "x.pdf");
    assert_eq!(state.target_file("y.pdf").unwrap(), "y.pdf");
}

#[test]
fn test_repl_messages() {
    assert_eq!(opened_message("a.pdf", 12), "Opened a.pdf (12 pages)");
    assert_eq!(required_argument("", "Usage: open <file>").map_err(message), Err("Usage: open <file>".to_string()));
    assert_eq!(required_argument("f.pdf", "Usage: open <file>").unwrap(), "f.pdf");
    assert!(text_eq("abc", "abc"));
    assert!(!text_eq("abc", "abd"));
}
