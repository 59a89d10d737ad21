use std::rc::Rc;

use tcct::bignum::BigNum;
use tcct::name_map::{NameMap, NameSet};
use tcct::symbolic_execution::SymbolicState;
use tcct::symbolic_value::{OwnerName, SymbolicAccess, SymbolicName, SymbolicValue};

fn name(id: usize, index: Option<i64>) -> SymbolicName {
    SymbolicName {
        name: id,
        owner: Rc::new(vec![OwnerName { name: 0, counter: 0 }]),
        access: match index {
            Some(i) => vec![SymbolicAccess::ArrayAccess(SymbolicValue::ConstantInt(BigNum::from_i64(i)))],
            None => vec![],
        },
    }
}

fn int_of(v: Option<&BigNum>) -> Option<i64> {
    v.map(|b| tcct::pretty::bignum_text(b).parse::<i64>().unwrap())
}

#[test]
fn map_lookup_after_insert() {
    let mut m: NameMap<BigNum> = NameMap::new();
    m.insert(name(1, None), BigNum::from_i64(10));
    m.insert(name(2, Some(0)), BigNum::from_i64(20));
    assert_eq!(int_of(m.get(&name(1, None))), Some(10));
    assert_eq!(int_of(m.get(&name(2, Some(0)))), Some(20));
    assert_eq!(int_of(m.get(&name(2, Some(1)))), None);
    assert!(!m.contains_key(&name(2, None)));
    assert_eq!(m.len(), 2);
}

#[test]
fn map_second_insert_wins() {
    let mut m: NameMap<BigNum> = NameMap::new();
    m.insert(name(3, Some(4)), BigNum::from_i64(1));
    m.insert(name(3, Some(4)), BigNum::from_i64(2));
    assert_eq!(int_of(m.get(&name(3, Some(4)))), Some(2));
    assert_eq!(m.len(), 1);
    m.clear();
    assert!(!m.contains_key(&name(3, Some(4))));
}

#[test]
fn set_membership_after_insert() {
    let mut s = NameSet::new();
    s.insert(name(5, None));
    s.insert(name(5, None));
    s.insert(name(6, Some(2)));
    assert!(s.contains(&name(5, None)));
    assert!(s.contains(&name(6, Some(2))));
    assert!(!s.contains(&name(6, Some(3))));
    assert_eq!(s.items.len(), 2);
}

#[test]
fn state_reads_back_what_was_written() {
    let mut st = SymbolicState::new();
    st.set_symval(name(1, None), SymbolicValue::ConstantBool(true));
    st.set_symval(name(2, None), SymbolicValue::ConstantInt(BigNum::from_i64(7)));
    st.set_symval(name(1, None), SymbolicValue::ConstantBool(false));
    assert!(matches!(st.get_symval(&name(1, None)).map(|v| &**v), Some(SymbolicValue::ConstantBool(false))));
    match st.get_symval(&name(2, None)).map(|v| &**v) {
        Some(SymbolicValue::ConstantInt(x)) => assert_eq!(tcct::pretty::bignum_text(x), "7"),
        _ => panic!("the value of the second variable is lost"),
    }
    assert!(st.get_symval(&name(3, None)).is_none());
}
