use woman::cli::{
    build_man_args, compose_manpath, handle_model_subcommand, is_model_invocation,
    man_page_paths, mask_api_key, parse_effort_value, parse_thinking_value,
    wants_path_output, ModelCommand,
};

fn strings(xs: &[&str]) -> Vec<String> {
    xs.iter().map(|s| s.to_string()).collect()
}

#[test]
fn test_mask_api_key() {
    assert_eq!(mask_api_key(""), "<not set>");
    assert_eq!(mask_api_key("short"), "••••••••");
    assert_eq!(mask_api_key("12345678"), "••••••••");
    assert_eq!(mask_api_key("sk-1234567890abcd"), "sk-••••••••abcd");
    assert_eq!(mask_api_key("sk-0123456789abcd"), "sk-••••••••abcd");
    assert_eq!(mask_api_key("密钥密钥密钥密钥密钥"), "密钥密••••••••密钥密钥");
}

#[test]
fn test_build_man_args() {
    assert_eq!(build_man_args(&strings(&["ls"])), Vec::<String>::new());
    assert_eq!(build_man_args(&strings(&["1", "ls"])), Vec::<String>::new());
    assert_eq!(build_man_args(&strings(&["-w", "ls"])), Vec::<String>::new());
    assert_eq!(build_man_args(&strings(&["-P", "cat", "ls"])), strings(&["-P", "cat"]));
    assert_eq!(build_man_args(&strings(&["-Pcat", "ls"])), strings(&["-Pcat"]));
    assert_eq!(build_man_args(&strings(&["-aP", "cat"])), strings(&["-aP", "cat"]));
    assert_eq!(build_man_args(&strings(&["-aP", "cat", "ls"])), strings(&["-aP", "cat"]));
    assert_eq!(build_man_args(&strings(&["-Pm", "ls"])), strings(&["-Pm"]));
    assert_eq!(build_man_args(&strings(&["--pager", "less", "3", "printf"])), strings(&["--pager", "less"]));
    assert_eq!(build_man_args(&strings(&["--pager=less", "ls"])), strings(&["--pager=less"]));
    assert_eq!(build_man_args(&strings(&["--pager"])), strings(&["--pager"]));
    assert_eq!(build_man_args(&strings(&["-P", "-w"])), strings(&["-P", "-w"]));
    assert_eq!(build_man_args(&strings(&["-a", "--path", "-", "ls"])), strings(&["-a"]));
}

#[test]
fn test_build_man_args_non_ascii_flag() {
    assert_eq!(build_man_args(&strings(&["-é", "ls"])), strings(&["-é"]));
    assert_eq!(build_man_args(&strings(&["-P", "-é", "ls"])), strings(&["-P", "-é"]));
}

#[test]
fn test_pager_value_does_not_bypass() {
    assert!(!woman::locale::should_bypass_translation(&strings(&["-Pless", "ls"])));
    assert!(!woman::locale::should_bypass_translation(&strings(&["-aPless", "ls"])));
    assert!(woman::locale::should_bypass_translation(&strings(&["-aKP", "less"])));
}

#[test]
fn test_model_subcommands() {
    assert!(is_model_invocation(&strings(&["woman", "model"])));
    assert!(is_model_invocation(&strings(&["woman", "--model", "list"])));
    assert!(!is_model_invocation(&strings(&["woman", "ls", "model"])));
    assert!(!is_model_invocation(&strings(&["woman"])));
    assert!(matches!(handle_model_subcommand(&strings(&["woman", "model"])), ModelCommand::Help));
    assert!(matches!(handle_model_subcommand(&strings(&["woman", "model", "list"])), ModelCommand::List));
    assert!(matches!(handle_model_subcommand(&strings(&["woman", "model", "show"])), ModelCommand::Show));
    assert!(matches!(handle_model_subcommand(&strings(&["woman", "model", "set-model", "m"])), ModelCommand::SetModel));
    assert!(matches!(handle_model_subcommand(&strings(&["woman", "model", "set-key"])), ModelCommand::SetKey));
    assert!(matches!(handle_model_subcommand(&strings(&["woman", "model", "set-url"])), ModelCommand::SetUrl));
    assert!(matches!(handle_model_subcommand(&strings(&["woman", "model", "set-thinking"])), ModelCommand::SetThinking));
    assert!(matches!(handle_model_subcommand(&strings(&["woman", "model", "set-effort"])), ModelCommand::SetEffort));
    assert!(matches!(handle_model_subcommand(&strings(&["woman", "model", "LIST"])), ModelCommand::Help));
}

#[test]
fn test_thinking_and_effort_values() {
    assert_eq!(parse_thinking_value("Enabled"), Some("enabled".to_string()));
    assert_eq!(parse_thinking_value("DISABLED"), Some("disabled".to_string()));
    assert_eq!(parse_thinking_value("on"), None);
    assert_eq!(parse_effort_value("HIGH"), Some("high".to_string()));
    assert_eq!(parse_effort_value("max"), Some("max".to_string()));
    assert_eq!(parse_effort_value("Low"), Some("low".to_string()));
    assert_eq!(parse_effort_value("medium"), None);
}

#[test]
fn test_path_output_and_manpath() {
    assert!(wants_path_output(&strings(&["-w", "ls"])));
    assert!(wants_path_output(&strings(&["ls", "--where"])));
    assert!(!wants_path_output(&strings(&["-aw", "ls"])));
    assert_eq!(compose_manpath("/usr/share/fish/man", ""), "/usr/share/fish/man:");
    assert_eq!(compose_manpath("/usr/share/fish/man", "/opt/man"), "/usr/share/fish/man:/opt/man");
}

#[test]
fn test_man_page_paths() {
    assert_eq!(
        man_page_paths("/usr/share/man/man1/ls.1.gz\n\n  /usr/share/man/man1p/ls.1p.gz  \n"),
        strings(&["/usr/share/man/man1/ls.1.gz", "/usr/share/man/man1p/ls.1p.gz"])
    );
    assert_eq!(man_page_paths(""), Vec::<String>::new());
}
