use kvs::linesearch::{search, search_insensitive_case, select_lines, select_lines_lowered, Config};

#[test]
fn one_result() {
    let query = "duct";
    let contents = "\
       Rust:
        safe, fast, productive.
                    Pick three.";
    assert_eq!(vec!["safe, fast, productive."], search(query, contents));
}

#[test]
fn case_insensitive() {
    let query = "Duct";
    let contents = "\
       Rust:
        safe, fast, productive.
                    Pick three.";
    assert_eq!(
        vec!["safe, fast, productive."],
        search_insensitive_case(query, contents)
    );
}

#[test]
fn search_is_case_sensitive() {
    let contents = "Duct tape\nproductive\nnothing here";
    assert_eq!(vec!["productive"], search("duct", contents));
    assert_eq!(vec!["Duct tape"], search("Duct", contents));
}

#[test]
fn search_keeps_line_order_and_trims() {
    let contents = "  one fish \r\n two fish\n\tred fish\t\nblue";
    assert_eq!(vec!["one fish", "two fish", "red fish"], search("fish", contents));
}

#[test]
fn search_without_match_is_empty() {
    let none: Vec<&str> = Vec::new();
    assert_eq!(none, search("zebra", "one\ntwo\nthree"));
    assert_eq!(none, search("a", ""));
}

#[test]
fn empty_query_matches_every_line() {
    assert_eq!(vec!["a", "", "b"], search("", "a\n\nb\n"));
}

#[test]
fn insensitive_search_lowers_both_sides() {
    let contents = "RUST is fast\nTrust me\nrusty\nplain";
    assert_eq!(
        vec!["RUST is fast", "Trust me", "rusty"],
        search_insensitive_case("rUsT", contents)
    );
}

#[test]
fn config_needs_three_arguments() {
    let two = vec!["prog".to_string(), "query".to_string()];
    assert!(matches!(Config::new(&two, false), Err("命令行参数小于3")));
    let three = vec!["prog".to_string(), "query".to_string(), "file.txt".to_string()];
    let config = Config::new(&three, true).unwrap();
    assert_eq!(config.query, "query");
    assert_eq!(config.file_path, "file.txt");
    assert!(config.ignore_case);
}

#[test]
fn config_selects_the_search() {
    let args = vec!["prog".to_string(), "Duct".to_string(), "f".to_string()];
    let contents = "productive\nDuct tape";
    let exact = Config::new(&args, false).unwrap();
    assert_eq!(vec!["Duct tape"], exact.select(contents));
    let loose = Config::new(&args, true).unwrap();
    assert_eq!(vec!["productive", "Duct tape"], loose.select(contents));
}

#[test]
fn requests_are_routed() {
    let home = kvs::webroute::route("GET / HTTP/1.1");
    assert_eq!((home.status_line, home.file_path, home.delay_secs), ("HTTP/1.1 200 OK", "hello.html", 0));
    let slow = kvs::webroute::route("GET /sleep HTTP/1.1");
    assert_eq!((slow.status_line, slow.file_path, slow.delay_secs), ("HTTP/1.1 200 OK", "hello.html", 5));
    let other = kvs::webroute::route("GET /missing HTTP/1.1");
    assert_eq!((other.status_line, other.file_path, other.delay_secs), ("HTTP/1.1 404 NOT FOUND", "404.html", 0));
    let lower = kvs::webroute::route("get / http/1.1");
    assert_eq!(lower.status_line, "HTTP/1.1 404 NOT FOUND");
}

#[test]
fn lines_are_selected_in_order() {
    let lines = vec![" a fish ", "bird", "FISH", "two fish"];
    assert_eq!(select_lines("fish", &lines), vec!["a fish", "two fish"]);
    assert_eq!(select_lines_lowered("fish", &lines), vec!["a fish", "FISH", "two fish"]);
    assert_eq!(select_lines_lowered("FISH", &lines), Vec::<&str>::new());
    assert_eq!(select_lines("fish", &Vec::new()), Vec::<&str>::new());
}
