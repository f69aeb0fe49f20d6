use mkbib::record::{make_normal_chunk, Record};
use mkbib::sanitize::{replace_all, sanitize_entry_fields, strip_tags};

#[test]
fn inline_tags_go_without_a_trace() {
    assert_eq!(strip_tags("H<sub>2</sub>O and <i>E. coli</i>"), "H2O and E. coli");
}

#[test]
fn separating_tags_leave_a_space() {
    assert_eq!(strip_tags("one<br/>two"), "onetwo");
    assert_eq!(strip_tags("one<br>two<p>three</p><DIV>four"), "one two three four");
    assert_eq!(strip_tags("x<mml:math display=\"inline\"><mml:mi>y</mml:mi></mml:math>z"), "x y z");
}

#[test]
fn entities_are_resolved_in_order() {
    assert_eq!(strip_tags("a &lt; b &amp;&amp; c &gt; d"), "a < b && c > d");
    assert_eq!(strip_tags("&quot;q&quot; &apos;s&apos;&nbsp;end"), "\"q\" 's' end");
    assert_eq!(strip_tags("&amp;lt;"), "&lt;");
}

#[test]
fn whitespace_collapses() {
    assert_eq!(strip_tags("  a \n\t b  "), "a b");
    assert_eq!(strip_tags(""), "");
}

#[test]
fn replacing_goes_from_left_to_right_without_overlap() {
    let v: Vec<char> = "aaaa".chars().collect();
    let pat: Vec<char> = "aa".chars().collect();
    let to: Vec<char> = "b".chars().collect();
    assert_eq!(replace_all(&v, &pat, &to).iter().collect::<String>(), "bb");
    let w: Vec<char> = "aaa".chars().collect();
    assert_eq!(replace_all(&w, &pat, &to).iter().collect::<String>(), "ba");
}

#[test]
fn only_tagged_fields_are_touched() {
    let mut r = Record::new("article", "k");
    r.set("title", make_normal_chunk("A <i>fine</i>   title".to_string()));
    r.set("abstract", make_normal_chunk("a < b".to_string()));
    r.set("journal", make_normal_chunk("J.  <b>X</b>".to_string()));
    r.set("note", make_normal_chunk("<i>kept</i>".to_string()));
    sanitize_entry_fields(&mut r);
    let text = |name: &str| r.text_of(name).unwrap().iter().collect::<String>();
    assert_eq!(text("title"), "A fine title");
    assert_eq!(text("abstract"), "a < b");
    assert_eq!(text("journal"), "J. X");
    assert_eq!(text("note"), "<i>kept</i>");
}
