use std::any::Any;

use apply_string_args::template::apply;
use apply_string_args::vars::{string_args, Vars};

fn to_text(v: &Box<dyn Any>) -> String {
    if let Some(s) = v.downcast_ref::<&str>() {
        s.to_string()
    } else if let Some(s) = v.downcast_ref::<String>() {
        s.clone()
    } else if let Some(n) = v.downcast_ref::<i32>() {
        n.to_string()
    } else {
        "?".to_string()
    }
}

fn boxed(pairs: Vec<(&str, Box<dyn Any>)>) -> Vars<Box<dyn Any>> {
    string_args(pairs.into_iter().map(|(k, v)| (k.to_string(), v)).collect())
}

fn no_vars() -> Vars<Box<dyn Any>> {
    Vars::new()
}

#[test]
fn hello_world() {
    let vars = boxed(vec![("name", Box::new("World"))]);
    assert_eq!(apply("Hello $name!", &vars, to_text), "Hello World!");
}

#[test]
fn escaped_dollar_before_digit() {
    assert_eq!(apply("Price: $$5", &no_vars(), to_text), "Price: $5");
}

#[test]
fn missing_name_gives_none() {
    assert_eq!(apply("$missing end", &no_vars(), to_text), "None end");
}

#[test]
fn lone_escape() {
    assert_eq!(apply("$$", &no_vars(), to_text), "$");
}

#[test]
fn unused_entries_ignored() {
    let vars = boxed(vec![("x", Box::new(1i32))]);
    assert_eq!(apply("no placeholders here", &vars, to_text), "no placeholders here");
}

#[test]
fn later_pair_overwrites_earlier() {
    let vars = boxed(vec![
        ("a", Box::new("foo")),
        ("b", Box::new("bar")),
        ("a", Box::new("baz")),
    ]);
    assert_eq!(vars.len(), 2);
    let a = vars.get(&"a".to_string()).unwrap();
    assert_eq!(*a.downcast_ref::<&str>().unwrap(), "baz");
    let b = vars.get(&"b".to_string()).unwrap();
    assert_eq!(*b.downcast_ref::<&str>().unwrap(), "bar");
    assert!(vars.get(&"c".to_string()).is_none());
}

#[test]
fn builder_on_no_pairs_is_empty() {
    let vars: Vars<Box<dyn Any>> = string_args(Vec::new());
    assert_eq!(vars.len(), 0);
    assert!(vars.get(&"a".to_string()).is_none());
}

#[test]
fn literal_text_unchanged() {
    let vars = boxed(vec![("a", Box::new("foo"))]);
    let base = "plain text, with ünïcödé and 123 but no dollar";
    assert_eq!(apply(base, &vars, to_text), base);
    assert_eq!(apply("", &vars, to_text), "");
}

#[test]
fn escape_is_not_rescanned() {
    let vars = boxed(vec![("name", Box::new("World"))]);
    assert_eq!(apply("$$name", &vars, to_text), "$name");
    assert_eq!(apply("$$$name", &vars, to_text), "$World");
    assert_eq!(apply("a$$$$b", &vars, to_text), "a$$b");
}

#[test]
fn present_name_in_context() {
    let vars = boxed(vec![("n1", Box::new(42i32)), ("who", Box::new("you".to_string()))]);
    assert_eq!(apply("x=$n1; y", &vars, to_text), "x=42; y");
    assert_eq!(apply("[$who]", &vars, to_text), "[you]");
}

#[test]
fn inserted_text_is_not_rescanned() {
    let vars = boxed(vec![("a", Box::new("$b")), ("b", Box::new("no"))]);
    assert_eq!(apply("$a", &vars, to_text), "$b");
}

#[test]
fn names_are_longest_alphanumeric_runs() {
    let vars = boxed(vec![("ab", Box::new("X")), ("a", Box::new("Y"))]);
    assert_eq!(apply("$ab-$a_b $abc", &vars, to_text), "X-Y_b None");
}

#[test]
fn names_are_case_sensitive() {
    let vars = boxed(vec![("Name", Box::new("upper"))]);
    assert_eq!(apply("$Name $name", &vars, to_text), "upper None");
}

#[test]
fn dollar_without_name_is_kept() {
    let vars = no_vars();
    assert_eq!(apply("cost $ 5, $_x, $é, end$", &vars, to_text), "cost $ 5, $_x, $é, end$");
}

#[test]
fn insert_replaces_value() {
    let mut vars: Vars<i32> = Vars::new();
    vars.insert("k".to_string(), 1);
    vars.insert("k".to_string(), 2);
    vars.insert("j".to_string(), 3);
    assert_eq!(vars.len(), 2);
    assert_eq!(vars.get(&"k".to_string()), Some(&2));
    let out = apply("$k+$j=$s", &vars, |v: &i32| v.to_string());
    assert_eq!(out, "2+3=None");
}

fn regex_reference(base: &str, vars: &Vars<Box<dyn Any>>) -> String {
    let re = lazy_regex::Regex::new(r"\$(\$|[A-Za-z0-9]+)").unwrap();
    re.replace_all(base, |c: &lazy_regex::Captures<'_>| {
        let s = c.get(0).unwrap().as_str();
        if s == "$$" {
            "$".to_owned()
        } else {
            match vars.get(&s.replace('$', "")) {
                Some(v) => to_text(v),
                None => "None".to_owned(),
            }
        }
    })
    .to_string()
}

#[test]
fn agrees_with_regex_replacement() {
    let vars = boxed(vec![
        ("a", Box::new("A")),
        ("b2", Box::new(7i32)),
        ("Z", Box::new("$a".to_string())),
    ]);
    let bases = [
        "",
        "$",
        "$$",
        "$$$",
        "$$$$a",
        "$a$b2$Z",
        "x$a1 $b2. $$b2 $Z$",
        "ü$aé$-$b2_",
        "end with $",
        "$$a$a$$",
    ];
    for base in bases {
        assert_eq!(apply(base, &vars, to_text), regex_reference(base, &vars), "on {:?}", base);
    }
}
