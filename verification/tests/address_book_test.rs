use vchat::addr::{IpAddr, SocketAddr};
use vchat::address_book::AddressBook;

fn v4(a: u8, b: u8, c: u8, d: u8, port: u16) -> SocketAddr {
    SocketAddr { ip: IpAddr::V4([a, b, c, d]), port }
}

fn v6(last: u8, port: u16) -> SocketAddr {
    let mut o = [0u8; 16];
    o[15] = last;
    SocketAddr { ip: IpAddr::V6(o), port }
}

#[test]
fn addresses_are_sorted_and_unique() {
    let mut book = AddressBook::new();
    book.add_address(v6(1, 5));
    book.add_address(v4(10, 0, 0, 2, 1));
    book.add_address(v4(10, 0, 0, 1, 9));
    book.add_address(v4(10, 0, 0, 1, 3));
    book.add_address(v4(10, 0, 0, 2, 1));
    assert_eq!(
        book.get_addresses(),
        &vec![v4(10, 0, 0, 1, 3), v4(10, 0, 0, 1, 9), v4(10, 0, 0, 2, 1), v6(1, 5)]
    );
}

#[test]
fn remove_returns_the_address() {
    let mut book = AddressBook::new();
    book.add_address(v4(1, 2, 3, 4, 5));
    book.add_address(v4(1, 2, 3, 4, 6));
    assert_eq!(book.remove_address(&v4(1, 2, 3, 4, 5)), Some(v4(1, 2, 3, 4, 5)));
    assert_eq!(book.remove_address(&v4(1, 2, 3, 4, 5)), None);
    assert_eq!(book.get_addresses(), &vec![v4(1, 2, 3, 4, 6)]);
}

#[test]
fn clear_empties_the_book() {
    let mut book = AddressBook::new();
    book.add_address(v6(3, 3));
    book.clear_addresses();
    assert!(book.get_addresses().is_empty());
}

#[test]
fn order_is_family_then_address_then_port() {
    assert!(v4(255, 255, 255, 255, 65535).lt(&v6(0, 0)));
    assert!(v4(9, 0, 0, 0, 65535).lt(&v4(10, 0, 0, 0, 0)));
    assert!(v4(10, 0, 0, 0, 1).lt(&v4(10, 0, 0, 0, 2)));
    assert!(!v6(1, 0).lt(&v6(0, 9)));
    assert!(v6(1, 0).same(&v6(1, 0)));
    assert!(!v6(1, 0).same(&v6(1, 1)));
    assert!(!v4(0, 0, 0, 1, 0).same(&v6(1, 0)));
}

#[test]
fn add_then_remove_restores_the_book() {
    let mut book = AddressBook::new();
    book.add_address(v4(10, 0, 0, 2, 1));
    book.add_address(v4(10, 0, 0, 1, 9));
    let before = book.get_addresses().clone();
    book.add_address(v4(10, 0, 0, 1, 5));
    assert_eq!(book.get_addresses().len(), 3);
    assert_eq!(book.remove_address(&v4(10, 0, 0, 1, 5)), Some(v4(10, 0, 0, 1, 5)));
    assert_eq!(book.get_addresses(), &before);
    book.add_address(v4(10, 0, 0, 2, 1));
    assert_eq!(book.get_addresses(), &before);
    assert_eq!(book.remove_address(&v4(1, 1, 1, 1, 1)), None);
    assert_eq!(book.get_addresses(), &before);
}
