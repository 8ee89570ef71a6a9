use aocprep::run::{
    check_status, fixture_file_name, join, puzzle_url, session_cookie, AocError, Config,
    RunContext,
};

fn run(day: &str, base: &str) -> RunContext {
    RunContext { day_name: day.to_string(), base_folder: base.to_string() }
}

fn config() -> Config {
    Config { year: "2021".to_string(), session: "SECRET-REDACTED".to_string() }
}

#[test]
fn day_number_reads_digits_after_prefix() {
    assert_eq!(run("day07", "/p").day_number(), Ok(7));
    assert_eq!(run("day7", "/p").day_number(), Ok(7));
    assert_eq!(run("day25", "/p").day_number(), Ok(25));
    assert_eq!(run("day+3", "/p").day_number(), Ok(3));
    assert_eq!(run("xyz0", "/p").day_number(), Ok(0));
}

#[test]
fn day_number_rejects_bad_names() {
    for name in ["day", "da", "", "dayx", "day-1", "day+", "day 7", "day7a", "day99999999999999999999999"] {
        assert_eq!(
            run(name, "/p").day_number(),
            Err(AocError::BadDayName(name.to_string())),
            "{}",
            name
        );
    }
}

#[test]
fn day_number_largest_value() {
    let name = format!("day{}", usize::MAX);
    assert_eq!(run(&name, "/p").day_number(), Ok(usize::MAX));
}

#[test]
fn day_folder_joins_paths() {
    assert_eq!(run("day01", "/home/aoc").day_folder(), "/home/aoc/day01");
    assert_eq!(run("day01", "/home/aoc/").day_folder(), "/home/aoc/day01");
    assert_eq!(run("/abs/day01", "/home/aoc").day_folder(), "/abs/day01");
    assert_eq!(run("day01", "").day_folder(), "day01");
    assert_eq!(join("a/b", "input.txt"), "a/b/input.txt");
}

#[test]
fn urls_and_headers() {
    assert_eq!(puzzle_url(&config(), 7, "/input"), "https://adventofcode.com/2021/day/7/input");
    assert_eq!(puzzle_url(&config(), 12, ""), "https://adventofcode.com/2021/day/12");
    assert_eq!(puzzle_url(&config(), 0, ""), "https://adventofcode.com/2021/day/0");
    assert_eq!(session_cookie(&config()), "session=SECRET-REDACTED");
}

#[test]
fn input_is_not_fetched_twice() {
    let r = run("day07", "/p");
    assert_eq!(r.input_request(&config(), true), Ok(None));
    assert_eq!(
        r.input_request(&config(), false),
        Ok(Some("https://adventofcode.com/2021/day/7/input".to_string()))
    );
    assert_eq!(run("dayx", "/p").input_request(&config(), true), Ok(None));
    assert_eq!(
        run("dayx", "/p").input_request(&config(), false),
        Err(AocError::BadDayName("dayx".to_string()))
    );
}

#[test]
fn page_request_address() {
    assert_eq!(
        run("day09", "/p").page_request(&config()),
        Ok("https://adventofcode.com/2021/day/9".to_string())
    );
    assert_eq!(run("d", "/p").page_request(&config()), Err(AocError::BadDayName("d".to_string())));
}

#[test]
fn refused_statuses_mean_not_available() {
    assert_eq!(check_status(400), Err(AocError::NotAvailable));
    assert_eq!(check_status(404), Err(AocError::NotAvailable));
    assert_eq!(check_status(599), Err(AocError::NotAvailable));
    assert_eq!(check_status(200), Ok(()));
    assert_eq!(check_status(302), Ok(()));
    assert_eq!(check_status(399), Ok(()));
    assert_eq!(check_status(600), Ok(()));
}

#[test]
fn fixture_files_are_numbered_with_two_digits() {
    assert_eq!(fixture_file_name(0), "test00.txt");
    assert_eq!(fixture_file_name(7), "test07.txt");
    assert_eq!(fixture_file_name(10), "test10.txt");
    assert_eq!(fixture_file_name(123), "test123.txt");
}
