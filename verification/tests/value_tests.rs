use query_engine::number::{compare_float_bits, float_bits_finite, Number};
use query_engine::order::Order;
use query_engine::text::{
    chars_of, compare_text, contains_text, ends_with_text, has_name, same_text, starts_with_text,
};
use query_engine::value::{Object, Value};

fn whole(n: u64) -> Value {
    Value::Number(Number::PosInt(n))
}

fn float(x: f64) -> Value {
    Value::Number(Number::Float(x.to_bits()))
}

fn text(s: &str) -> Value {
    Value::String(s.to_string())
}

fn sign(o: std::cmp::Ordering) -> Order {
    match o {
        std::cmp::Ordering::Less => Order::Less,
        std::cmp::Ordering::Equal => Order::Equal,
        std::cmp::Ordering::Greater => Order::Greater,
    }
}

#[test]
fn objects_keep_their_keys_in_order() {
    let mut o = Object::new();
    assert_eq!(o.len(), 0);
    assert_eq!(o.insert("m".to_string(), whole(1)), None);
    assert_eq!(o.insert("a".to_string(), whole(2)), None);
    assert_eq!(o.insert("z".to_string(), whole(3)), None);
    assert_eq!(o.insert("ab".to_string(), whole(4)), None);
    assert_eq!(o.insert("".to_string(), whole(5)), None);
    assert_eq!(o.len(), 5);
    let keys: Vec<&str> = (0..o.len()).map(|i| o.entry(i).0.as_str()).collect();
    assert_eq!(keys, vec!["", "a", "ab", "m", "z"]);
    assert_eq!(o.insert("a".to_string(), text("new")), Some(whole(2)));
    assert_eq!(o.len(), 5);
    assert_eq!(o.get("a"), Some(&text("new")));
    assert_eq!(o.get("ab"), Some(&whole(4)));
    assert_eq!(o.get(""), Some(&whole(5)));
    assert_eq!(o.get("b"), None);
    assert_eq!(o.entry(4), (&"z".to_string(), &whole(3)));
}

#[test]
fn objects_are_equal_whatever_the_order_of_insertion() {
    let mut a = Object::new();
    a.insert("x".to_string(), whole(1));
    a.insert("y".to_string(), whole(2));
    let mut b = Object::new();
    b.insert("y".to_string(), whole(2));
    b.insert("x".to_string(), whole(1));
    assert_eq!(a, b);
    assert!(Value::Object(a.clone()).identical(&Value::Object(b.clone())));
    b.insert("x".to_string(), whole(3));
    assert_ne!(a, b);
    let kept = a.select(&vec!["y".to_string(), "q".to_string()], true);
    assert_eq!(kept.len(), 1);
    assert_eq!(kept.get("y"), Some(&whole(2)));
    let dropped = a.select(&vec!["y".to_string()], false);
    assert_eq!(dropped.len(), 1);
    assert_eq!(dropped.get("x"), Some(&whole(1)));
}

#[test]
fn equal_and_identical_differ_on_zeros() {
    assert_eq!(float(0.0), float(-0.0));
    assert!(!float(0.0).identical(&float(-0.0)));
    assert!(float(1.5).identical(&float(1.5)));
    assert_ne!(whole(1), float(1.0));
    assert_ne!(Value::Number(Number::PosInt(0)), Value::Number(Number::NegInt(0)));
    assert_ne!(float(f64::NAN), float(f64::NAN));
    assert!(float(f64::NAN).identical(&float(f64::NAN)));
    assert_eq!(Value::Null, Value::Null);
    assert_ne!(Value::Null, Value::Bool(false));
    assert_eq!(Value::Array(vec![whole(1), text("a")]), Value::Array(vec![whole(1), text("a")]));
    assert_ne!(Value::Array(vec![whole(1)]), Value::Array(vec![whole(1), whole(1)]));
    let nested = Value::Array(vec![Value::Array(vec![text("deep")]), Value::Null]);
    assert_eq!(nested.clone(), nested);
    assert!(nested.clone().identical(&nested));
}

#[test]
fn doubles_compare_by_their_bits_as_doubles_do() {
    let samples = [
        0.0f64,
        -0.0,
        1.0,
        -1.0,
        0.5,
        -0.5,
        f64::MIN_POSITIVE,
        -f64::MIN_POSITIVE,
        5e-324,
        -5e-324,
        f64::MAX,
        f64::MIN,
        f64::INFINITY,
        f64::NEG_INFINITY,
        f64::NAN,
        -f64::NAN,
        1e16,
        9007199254740993.0,
        123456.789,
    ];
    for a in samples {
        for b in samples {
            assert_eq!(compare_float_bits(a.to_bits(), b.to_bits()), a.partial_cmp(&b).map(sign));
        }
        assert_eq!(float_bits_finite(a.to_bits()), a.is_finite());
        assert_eq!(Number::from_float_bits(a.to_bits()).is_some(), a.is_finite());
    }
}

#[test]
fn whole_numbers_become_the_nearest_double() {
    let unsigned = [0u64, 1, 2, 25, 30, 1 << 53, (1 << 53) + 1, (1 << 53) + 3, u64::MAX, u64::MAX - 1024];
    for n in unsigned {
        assert_eq!(Number::PosInt(n).float_bits(), (n as f64).to_bits());
    }
    let signed = [-1i64, -2, -30, i64::MIN, i64::MIN + 1, -(1 << 53) - 1, 0, 7, i64::MAX];
    for n in signed {
        assert_eq!(Number::NegInt(n).float_bits(), (n as f64).to_bits());
    }
    assert_eq!(Number::Float(1.25f64.to_bits()).float_bits(), 1.25f64.to_bits());
    assert_eq!(Number::PosInt(3).compare(&Number::Float(2.5f64.to_bits())), Some(Order::Greater));
    assert_eq!(Number::NegInt(-3).compare(&Number::PosInt(0)), Some(Order::Less));
    assert_eq!(
        Number::PosInt((1 << 53) + 1).compare(&Number::PosInt(1 << 53)),
        Some(Order::Equal)
    );
    assert_eq!(Number::from_count(12), Number::PosInt(12));
    assert_eq!(Number::from_i64(12), Number::PosInt(12));
    assert_eq!(Number::from_i64(0), Number::PosInt(0));
    assert!(Number::from_i64(-12).identical(&Number::NegInt(-12)));
    assert!(Number::from_i64(i64::MIN).identical(&Number::NegInt(i64::MIN)));
}

#[test]
fn texts_compare_by_code_point() {
    let samples = ["", "a", "A", "ab", "abc", "b", "é", "z", "日本", "a.b", "Z", "aa"];
    for a in samples {
        for b in samples {
            assert_eq!(compare_text(a, b), sign(a.cmp(b)));
            assert_eq!(same_text(a, b), a == b);
            assert_eq!(contains_text(a, b), a.contains(b));
            assert_eq!(starts_with_text(a, b), a.starts_with(b));
            assert_eq!(ends_with_text(a, b), a.ends_with(b));
        }
        assert_eq!(chars_of(a), a.chars().collect::<Vec<char>>());
    }
    assert!(contains_text("hello world", "lo w"));
    assert!(!contains_text("hello world", "low"));
    let names = vec!["x".to_string(), "yy".to_string()];
    assert!(has_name(&names, "yy"));
    assert!(!has_name(&names, "y"));
    assert!(!has_name(&vec![], ""));
}
