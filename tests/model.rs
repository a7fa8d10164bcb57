use std::cmp::Ordering;

use allocation::{allocate, sort_by_preference, Batch, Date, DomainError, OrderLine, Quantity, Reference, Sku};
use chrono::{Datelike, Local};

fn today() -> Date {
    let d = Local::now().naive_local().date();
    Date::from_ymd(d.year(), d.month(), d.day()).unwrap()
}

fn ymd(y: i32, m: u32, d: u32) -> Date {
    Date::from_ymd(y, m, d).unwrap()
}

fn make_batch_and_line(sku: Sku, batch_qty: i32, line_qty: i32) -> (Batch, OrderLine) {
    (
        Batch::new(
            Reference("batch-001".to_string()),
            sku.clone(),
            Quantity(batch_qty),
            Some(today()),
        ),
        OrderLine {
            orderid: "order-ref".to_string(),
            sku,
            qty: Quantity(line_qty),
        },
    )
}

#[test]
fn test_allocating_to_a_batch_reduces_the_available_quantity() {
    let mut batch = Batch::new(
        Reference("batch-001".to_string()),
        Sku("SMALL-TABLE".to_string()),
        Quantity(20),
        Some(today()),
    );
    let line = OrderLine {
        orderid: "order-ref".to_string(),
        sku: Sku("SMALL-TABLE".to_string()),
        qty: Quantity(2),
    };
    batch.allocate(line);
    assert_eq!(batch.available_quantity(), 18);
}

#[test]
fn test_can_allocate_if_available_greater_than_required() {
    let (large_batch, small_line) = make_batch_and_line(Sku("ELEGANT-LAMP".to_string()), 20, 2);
    assert!(large_batch.can_allocate(&small_line));
}

#[test]
fn test_cannot_allocate_if_available_smaller_than_required() {
    let (small_batch, large_line) = make_batch_and_line(Sku("ELEGANT-LAMP".to_string()), 2, 20);
    assert!(!small_batch.can_allocate(&large_line));
}

#[test]
fn test_can_allocate_if_available_equal_to_required() {
    let (batch, line) = make_batch_and_line(Sku("ELEGANT-LAMP".to_string()), 2, 2);
    assert!(batch.can_allocate(&line));
}

#[test]
fn test_can_only_deallocate_allocated_lines() {
    let (mut batch, unallocated_line) =
        make_batch_and_line(Sku("DECORATIVE-TRINKET".to_string()), 20, 2);
    batch.deallocate(unallocated_line);
    assert_eq!(batch.available_quantity(), 20);
}

#[test]
fn test_batch_allocation_should_be_idempotent() {
    let (mut batch, line) = make_batch_and_line(Sku("ANGULAR-DESK".to_string()), 20, 2);
    batch.allocate(line.clone());
    batch.allocate(line);
    assert_eq!(batch.available_quantity(), 18);
}

#[test]
fn test_prefers_current_stock_batches_to_shipments() {
    let in_stock = Batch::new(
        Reference("in-stock".to_string()),
        Sku("RETRO-CLOCK".to_string()),
        Quantity(100),
        None,
    );
    let shipment = Batch::new(
        Reference("shipment".to_string()),
        Sku("RETRO-CLOCK".to_string()),
        Quantity(100),
        Some(today()),
    );
    let line = OrderLine {
        orderid: "oref".to_string(),
        sku: Sku("RETRO-CLOCK".to_string()),
        qty: Quantity(10),
    };
    let expected = in_stock.reference().to_string();
    let mut batches = vec![shipment, in_stock];
    let refid = allocate(line, &mut batches).unwrap();
    assert_eq!(expected, refid.unwrap());
    assert_eq!(batches[0].available_quantity(), 90);
    assert_eq!(batches[1].available_quantity(), 100);
}

#[test]
fn test_prefers_earlier_batches() {
    let earliest = Batch::new(
        Reference("speedy".to_string()),
        Sku("MINIMALIST-SPOON".to_string()),
        Quantity(100),
        Some(ymd(2024, 5, 21)),
    );
    let medium = Batch::new(
        Reference("normal".to_string()),
        Sku("MINIMALIST-SPOON".to_string()),
        Quantity(100),
        Some(ymd(2024, 5, 22)),
    );
    let latest = Batch::new(
        Reference("slow".to_string()),
        Sku("MINIMALIST-SPOON".to_string()),
        Quantity(100),
        Some(ymd(2024, 5, 26)),
    );
    let line = OrderLine {
        orderid: "order-001".to_string(),
        sku: Sku("MINIMALIST-SPOON".to_string()),
        qty: Quantity(10),
    };
    let expected = earliest.reference().to_string();
    let mut batches = vec![medium, earliest, latest];
    let refid = allocate(line, &mut batches).unwrap();
    assert_eq!(expected, refid.unwrap());
    assert_eq!(batches[0].available_quantity(), 90);
    assert_eq!(batches[1].available_quantity(), 100);
}

#[test]
fn test_raises_out_of_stock_exception_if_cannot_allocate() {
    let batch = Batch::new(
        Reference("batch-001".to_string()),
        Sku("SMALL-FORK".to_string()),
        Quantity(10),
        None,
    );
    let line = OrderLine {
        orderid: "order-001".to_string(),
        sku: Sku("SMALL-KNIFE".to_string()),
        qty: Quantity(10),
    };
    let mut batches = vec![batch];
    let result = allocate(line, &mut batches);
    assert!(result.is_err());
}

#[test]
fn allocation_lowers_available_by_line_quantity() {
    let (mut batch, line) = make_batch_and_line(Sku("OAK-SHELF".to_string()), 50, 17);
    assert_eq!(batch.allocated_quantity(), 0);
    batch.allocate(line);
    assert_eq!(batch.allocated_quantity(), 17);
    assert_eq!(batch.available_quantity(), 33);
    assert_eq!(batch.allocations().len(), 1);
}

#[test]
fn allocation_of_exactly_available_empties_batch() {
    let (mut batch, line) = make_batch_and_line(Sku("OAK-SHELF".to_string()), 5, 5);
    batch.allocate(line);
    assert_eq!(batch.available_quantity(), 0);
}

#[test]
fn allocation_that_does_not_fit_is_ignored() {
    let (mut batch, line) = make_batch_and_line(Sku("OAK-SHELF".to_string()), 5, 6);
    batch.allocate(line);
    assert_eq!(batch.available_quantity(), 5);
    assert_eq!(batch.allocations().len(), 0);
}

#[test]
fn lines_with_other_order_ids_are_distinct() {
    let (mut batch, line) = make_batch_and_line(Sku("OAK-SHELF".to_string()), 20, 3);
    let other = OrderLine::new("order-other".to_string(), Sku("OAK-SHELF".to_string()), Quantity(3));
    assert!(!line.same_as(&other));
    assert!(line.same_as(&line.clone()));
    batch.allocate(line);
    batch.allocate(other);
    assert_eq!(batch.available_quantity(), 14);
}

#[test]
fn cannot_allocate_line_of_another_sku() {
    let (batch, _) = make_batch_and_line(Sku("OAK-SHELF".to_string()), 20, 2);
    let line = OrderLine::new("o".to_string(), Sku("oak-shelf".to_string()), Quantity(2));
    assert!(!batch.can_allocate(&line));
}

#[test]
fn deallocating_allocated_line_restores_quantity() {
    let (mut batch, line) = make_batch_and_line(Sku("PINE-BED".to_string()), 20, 4);
    batch.allocate(line.clone());
    assert_eq!(batch.available_quantity(), 16);
    batch.deallocate(line);
    assert_eq!(batch.available_quantity(), 20);
    assert_eq!(batch.allocations().len(), 0);
}

#[test]
fn out_of_stock_when_no_batch_has_enough() {
    let a = Batch::new(Reference("a".to_string()), Sku("LAMP".to_string()), Quantity(5), None);
    let b = Batch::new(Reference("b".to_string()), Sku("LAMP".to_string()), Quantity(6), Some(ymd(2024, 1, 2)));
    let line = OrderLine::new("o1".to_string(), Sku("LAMP".to_string()), Quantity(10));
    let mut batches = vec![b, a];
    let result = allocate(line, &mut batches);
    assert_eq!(result, Err(DomainError::OutOfStock));
    assert_eq!(batches.len(), 2);
    assert_eq!(batches[0].reference(), "a");
    assert_eq!(batches[0].available_quantity(), 5);
    assert_eq!(batches[1].available_quantity(), 6);
}

#[test]
fn out_of_stock_for_empty_collection() {
    let line = OrderLine::new("o1".to_string(), Sku("LAMP".to_string()), Quantity(1));
    let mut batches: Vec<Batch> = Vec::new();
    assert_eq!(allocate(line, &mut batches), Err(DomainError::OutOfStock));
}

#[test]
fn first_fit_skips_batches_that_are_too_small() {
    let small = Batch::new(Reference("small".to_string()), Sku("RUG".to_string()), Quantity(3), None);
    let big = Batch::new(Reference("big".to_string()), Sku("RUG".to_string()), Quantity(30), Some(ymd(2025, 3, 1)));
    let line = OrderLine::new("o2".to_string(), Sku("RUG".to_string()), Quantity(10));
    let mut batches = vec![big, small];
    let r = allocate(line, &mut batches).unwrap();
    assert_eq!(r, Some("big".to_string()));
    assert_eq!(batches[0].available_quantity(), 3);
    assert_eq!(batches[1].available_quantity(), 20);
}

#[test]
fn sorting_puts_stock_first_then_earliest() {
    let s = Sku("CHAIR".to_string());
    let mut batches = vec![
        Batch::new(Reference("late".to_string()), s.clone(), Quantity(1), Some(ymd(2025, 1, 1))),
        Batch::new(Reference("early".to_string()), s.clone(), Quantity(1), Some(ymd(2024, 12, 31))),
        Batch::new(Reference("stock".to_string()), s.clone(), Quantity(1), None),
    ];
    sort_by_preference(&mut batches);
    let refs: Vec<&str> = batches.iter().map(|b| b.reference()).collect();
    assert_eq!(refs, vec!["stock", "early", "late"]);
    assert_eq!(batches[0].cmp(&batches[1]), Ordering::Less);
    assert_eq!(batches[2].cmp(&batches[1]), Ordering::Greater);
    assert_eq!(batches[0].cmp(&batches[0]), Ordering::Equal);
}

#[test]
fn batch_getters_return_fields() {
    let b = Batch::new(Reference("r1".to_string()), Sku("DESK".to_string()), Quantity(7), Some(ymd(2024, 2, 29)));
    assert_eq!(b.reference(), "r1");
    assert_eq!(b.sku(), "DESK");
    assert_eq!(b.purchased_quantity(), 7);
    assert_eq!(b.eta(), Some(ymd(2024, 2, 29)));
}

#[test]
fn dates_are_checked_against_the_calendar() {
    assert!(Date::from_ymd(2024, 2, 29).is_some());
    assert!(Date::from_ymd(2023, 2, 29).is_none());
    assert!(Date::from_ymd(1900, 2, 29).is_none());
    assert!(Date::from_ymd(2000, 2, 29).is_some());
    assert!(Date::from_ymd(2024, 4, 31).is_none());
    assert!(Date::from_ymd(2024, 13, 1).is_none());
    assert!(Date::from_ymd(2024, 1, 0).is_none());
    let d = ymd(2024, 5, 21);
    assert_eq!((d.year(), d.month(), d.day()), (2024, 5, 21));
}

#[test]
fn dates_compare_chronologically() {
    assert_eq!(allocation::date::compare_dates(&ymd(2024, 5, 21), &ymd(2024, 5, 22)), Ordering::Less);
    assert_eq!(allocation::date::compare_dates(&ymd(2025, 1, 1), &ymd(2024, 12, 31)), Ordering::Greater);
    assert_eq!(allocation::date::compare_dates(&ymd(2024, 6, 1), &ymd(2024, 6, 1)), Ordering::Equal);
}

#[test]
fn out_of_stock_has_a_message() {
    assert_eq!(DomainError::OutOfStock.message(), "Out of stock");
}
