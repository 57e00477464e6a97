//! The string and number validators, the path variables and the
//! container conversion adapter.

use taskflow::map_into::MapInto;
use taskflow::url::PathVariable;
use taskflow::url::is_path_variable;
use taskflow::validate::ValidatorNumberExt;
use taskflow::validate::ValidatorStringExt;
use taskflow::validate::number;
use taskflow::validate::string;

#[test]
fn string_test() {
    let _r = "aa".validate().max(2).take().unwrap();
    let _r = "aa".validate().min(2).take().unwrap();
    let _r = "a@a".validate().email().take().unwrap();

    let r = "aa"
        .validate()
        .max(1)
        .take()
        .expect_err("exepcted err, but returns ok");

    match r {
        string::Error::MoreThan(x, n) if x.chars().count() > n => {}
        _ => panic!(),
    }

    let r = "a"
        .validate()
        .min(2)
        .take()
        .expect_err("expected err, but returns ok");

    match r {
        string::Error::LessThan(x, n) if x.chars().count() < n => {}
        _ => panic!(),
    }

    let r = "@"
        .validate()
        .email()
        .take()
        .expect_err("expected err, but returns ok");

    match r {
        string::Error::NotEmail(_) => {}
        _ => panic!(),
    }
}

#[test]
fn email_shapes() {
    assert!("user@domain".validate().email().take().is_ok());
    // The fragment after the first separator decides, so a second
    // separator directly after it leaves an empty domain.
    assert!("a@@b".validate().email().take().is_err());
    assert!("@domain".validate().email().take().is_err());
    assert!("user@".validate().email().take().is_err());
    assert!("a@b@c".validate().email().take().is_ok());
}

#[test]
fn number_test() {
    let _r = (2).validate().max(2).take().unwrap();
    let _r = (2).validate().min(2).take().unwrap();
    let _r = (2).validate().eq(2).take().unwrap();

    let r = (2)
        .validate()
        .max(1)
        .take()
        .expect_err("expected err, but returns ok");

    match r {
        number::Error::MoreThan(x, n) if x >= n => {}
        _ => panic!(),
    }

    let r = (2)
        .validate()
        .min(3)
        .take()
        .expect_err("expected err, but returns ok");

    match r {
        number::Error::LessThan(x, n) if x <= n => {}
        _ => panic!(),
    }

    let r = (2)
        .validate()
        .eq(1)
        .take()
        .expect_err("expected err, but returns ok");

    match r {
        number::Error::NotEqual(x, n) if x != n => {}
        _ => panic!(),
    }
}

#[test]
fn map_into() {
    let x = Some("str");
    let _y: String = x.map_into().unwrap();
}

#[test]
fn map_into_keeps_shape() {
    let none: Option<&str> = None;
    let mapped: Option<String> = none.map_into();
    assert!(mapped.is_none());
    let ok: Result<&str, i32> = Ok("v");
    let mapped: Result<String, i32> = ok.map_into();
    assert_eq!(mapped, Ok("v".to_string()));
    let err: Result<&str, i32> = Err(7);
    let mapped: Result<String, i32> = err.map_into();
    assert_eq!(mapped, Err(7));
}

#[test]
fn path_variables_follow_the_pattern() {
    assert!(is_path_variable(":id"));
    assert!(!is_path_variable("users"));
    let mut vars = PathVariable::new("/users/42/posts/7", "/users/:id/posts/:post");
    assert_eq!(vars.next_variable(), Some("42".to_string()));
    assert_eq!(vars.next_variable(), Some("7".to_string()));
    assert_eq!(vars.next_variable(), None);
}
