use aocprep::fixtures::parse_tests;

#[test]
fn test_parse_tests() {
    let html = r##"<!DOCTYPE html>
    <html lang="en-us">
    <head>
    <meta charset="utf-8"/>
    <title>Day 7 - Advent of Code 2021</title>
    <link rel="shortcut icon" href="/favicon.png"/>
    </head><!--
    Oh, hello!  Funny seeing you here.
    -->
    <body>
    <p>For example, consider the following horizontal positions:</p>
    <pre><code>16,1,2,0,4,2,7,1,2,14</code></pre>
    <p>This means there's a crab with horizontal position <code>16</code>, a crab with horizontal position <code>1</code>, and so on.</p>
    </body>
    </html>
    "##;
    let v = parse_tests(&html).unwrap();
    assert!(v.len() == 1);
    assert!(v[0] == "16,1,2,0,4,2,7,1,2,14");
}

#[test]
fn blocks_come_in_document_order() {
    let html = "<html><body><pre><code>first</code></pre><p>between</p>\
                <pre><code>second</code></pre><div><pre><code>third</code></pre></div></body></html>";
    let v = parse_tests(html).unwrap();
    assert_eq!(v, vec!["first".to_string(), "second".to_string(), "third".to_string()]);
}

#[test]
fn code_outside_pre_is_left_out() {
    let html = "<html><body><p><code>inline text that is long</code></p>\
                <pre><span><code>nested deeper</code></span></pre><code>bare</code>\
                <pre><code>kept</code></pre></body></html>";
    let v = parse_tests(html).unwrap();
    assert_eq!(v, vec!["kept".to_string()]);
}

#[test]
fn nested_markup_text_is_joined_flush() {
    let html = "<html><body><pre><code>1,<em>2</em>,3\n<b>4<i>5</i></b>6</code></pre></body></html>";
    let v = parse_tests(html).unwrap();
    assert_eq!(v, vec!["1,2,3\n456".to_string()]);
}

#[test]
fn page_without_examples_gives_nothing() {
    let html = "<html><body><p>No examples, only <code>inline</code> code.</p><pre>plain</pre></body></html>";
    let v = parse_tests(html).unwrap();
    assert!(v.is_empty());
}

#[test]
fn empty_and_broken_markup_is_tolerated() {
    assert!(parse_tests("").unwrap().is_empty());
    let v = parse_tests("<pre><code>a<b>b</code></pre").unwrap();
    assert_eq!(v, vec!["ab".to_string()]);
}

#[test]
fn empty_code_block_gives_empty_fixture() {
    let v = parse_tests("<pre><code></code></pre><pre><code>x</code></pre>").unwrap();
    assert_eq!(v, vec![String::new(), "x".to_string()]);
}
