use watchnext::args::process_args;

#[test]
fn one_argument_is_the_directory() {
    let args = vec!["/videos".to_string()];
    assert_eq!(process_args(&args), Some(&"/videos".to_string()));
}

#[test]
fn no_argument_is_refused() {
    let args: Vec<String> = Vec::new();
    assert_eq!(process_args(&args), None);
}

#[test]
fn more_than_one_argument_is_refused() {
    let args = vec!["/videos".to_string(), "/music".to_string()];
    assert_eq!(process_args(&args), None);
}
