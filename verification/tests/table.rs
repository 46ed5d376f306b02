use criterion_table::ordered::OrderedMap;
use criterion_table::table::{Column, ColumnInfoVec, ColumnPosition, Row, Table};
use criterion_table::{ColumnInfo, Comparison, Float64, FloatOps, TableError, TimeUnit};

fn float(x: f64) -> Float64 {
    Float64 { bits: x.to_bits() }
}

fn value(x: Float64) -> f64 {
    f64::from_bits(x.bits)
}

fn ops() -> FloatOps<
    impl Fn(Float64, Float64) -> Float64,
    impl Fn(Float64, Float64) -> Float64,
    impl Fn(Float64) -> String,
> {
    FloatOps {
        divide: |a, b| float(value(a) / value(b)),
        multiply: |a, b| float(value(a) * value(b)),
        show: |a| format!("{:.2}", value(a)),
    }
}

fn ns(x: f64) -> TimeUnit {
    TimeUnit::Nanosecond(float(x))
}

fn columns(infos: &ColumnInfoVec) -> Vec<(&str, usize)> {
    infos
        .0
        .iter()
        .map(|info| (info.name.as_str(), info.max_width))
        .collect()
}

#[test]
fn ordered_map_keeps_order_and_finds_by_name() {
    let mut map: OrderedMap<u32> = OrderedMap::new();
    assert_eq!(map.len(), 0);
    assert_eq!(map.find("b"), None);
    map.push("b".to_string(), 1);
    map.push("a".to_string(), 2);
    map.push("".to_string(), 3);
    assert_eq!(map.len(), 3);
    assert_eq!(map.find("b"), Some(0));
    assert_eq!(map.find("a"), Some(1));
    assert_eq!(map.find(""), Some(2));
    assert_eq!(map.find("c"), None);
    *map.at_mut(1) = 20;
    assert_eq!(map.get("a"), Some(&20));
    assert_eq!(map.get("c"), None);
    let copy = map.clone();
    *map.at_mut(0) = 10;
    assert_eq!((*copy.at(0), *copy.at(1), *copy.at(2)), (1, 20, 3));
    assert_eq!(copy.find("a"), Some(1));
}

#[test]
fn column_info_only_grows() {
    let mut info = ColumnInfo::new("name".to_string(), 4);
    info.update_info(3);
    assert_eq!(info.max_width, 4);
    info.update_info(7);
    assert_eq!(info.max_width, 7);
    assert_eq!(info.clone().name, "name");
}

#[test]
fn first_column_is_one_time_as_fast() {
    let column = Column::new("c".to_string(), ns(5.0), None, &ops());
    assert_eq!(column.pct.0, float(1.0));
    assert_eq!(column.width(&ops()), "5.00 ns1.00x".len());
}

#[test]
fn other_columns_compare_with_the_first() {
    let column = Column::new("c".to_string(), ns(4.0), Some(ns(10.0)), &ops());
    assert_eq!(column.pct.0, float(2.5));
    assert_eq!(column.width(&ops()), "4.00 ns2.50x faster".len());
}

#[test]
fn rows_refuse_a_second_time() {
    let ops = ops();
    let mut row = Row::new("r".to_string());
    assert!(row.first_column_time().is_none());
    assert!(row.add_column("x".to_string(), ns(10.0), &ops).is_ok());
    let second = row.add_column("y".to_string(), ns(20.0), &ops).unwrap();
    assert_eq!(second.pct.0, float(0.5));
    match row.add_column("x".to_string(), ns(30.0), &ops) {
        Err(error) => {
            assert!(matches!(&error, TableError::DuplicateColumn(name) if name == "x"));
            assert_eq!(error.message(), "Duplicate column: x");
        }
        Ok(_) => panic!("x is there already"),
    }
    assert_eq!(row.column_data.len(), 2);
    assert!(matches!(row.first_column_time(), Some(TimeUnit::Nanosecond(t)) if t == float(10.0)));
}

#[test]
fn columns_are_put_in_or_widened() {
    let mut infos = ColumnInfoVec::new();
    infos.update_column_info(0, "a".to_string(), 3);
    infos.update_column_info(0, "b".to_string(), 5);
    infos.update_column_info(1, "c".to_string(), 1);
    assert_eq!(columns(&infos), [("b", 5), ("c", 1), ("a", 3)]);
    // The index counts for new columns only.
    infos.update_column_info(99, "a".to_string(), 8);
    infos.update_column_info(99, "b".to_string(), 2);
    assert_eq!(columns(&infos), [("b", 5), ("c", 1), ("a", 8)]);
    assert_eq!(infos.find("a"), Some(2));
    assert_eq!(infos.find("d"), None);
}

#[test]
fn tables_grow_cell_by_cell() {
    let ops = ops();
    let mut table = Table::new("t".to_string());
    assert!(table
        .add_column_data(1, "std".to_string(), "small".to_string(), ns(100.0), &ops)
        .is_ok());
    assert!(table
        .add_column_data(2, "a longer name than its data".to_string(), "small".to_string(), ns(50.0), &ops)
        .is_ok());
    assert!(table
        .add_column_data(1, "std".to_string(), "very large".to_string(), ns(7.0), &ops)
        .is_ok());
    assert_eq!(
        columns(&table.columns),
        [("", 10), ("std", 14), ("a longer name than its data", 27)]
    );
    assert_eq!(table.rows.len(), 2);
    assert_eq!(table.rows.at(0).name, "small");
    assert_eq!(table.rows.at(1).name, "very large");
    assert_eq!(table.rows.at(0).column_data.at(1).pct.0, float(2.0));
    // The second row starts anew.
    assert_eq!(table.rows.at(1).column_data.at(0).pct.0, float(1.0));
    let copy = table.clone();
    assert!(table
        .add_column_data(9, "std".to_string(), "small".to_string(), ns(1.0), &ops)
        .is_err());
    assert_eq!(columns(&copy.columns), columns(&table.columns));
}

#[test]
fn room_for_a_column() {
    let ops = ops();
    let mut table = Table::new("t".to_string());
    // The column without a name comes first, so there is room for one more.
    assert!(table.has_room(0, "c", "r"));
    assert!(table.has_room(1, "c", "r"));
    assert!(!table.has_room(2, "c", "r"));
    assert!(table.has_room(2, "", "r"));
    assert!(table
        .add_column_data(1, "c".to_string(), "r".to_string(), ns(1.0), &ops)
        .is_ok());
    assert!(table.has_room(2, "d", "r"));
    assert!(!table.has_room(3, "d", "r"));
    assert!(table.has_room(3, "c", "r"));
    assert!(table.has_room(3, "c", "other"));
}

#[test]
fn a_row_is_added_once() {
    let mut table = Table::new("t".to_string());
    table.get_row("r".to_string());
    table.get_row("q".to_string());
    table.get_row("r".to_string());
    assert_eq!(table.rows.len(), 2);
    assert_eq!(table.rows.find("q"), Some(1));
}

#[test]
fn positions_count_each_row() {
    let mut positions = ColumnPosition::new();
    assert_eq!(positions.next_idx("a".to_string()), 1);
    assert_eq!(positions.next_idx("a".to_string()), 2);
    assert_eq!(positions.next_idx("".to_string()), 1);
    assert_eq!(positions.next_idx("a".to_string()), 3);
    assert_eq!(positions.next_idx("".to_string()), 2);
}

#[test]
fn comparison_can_be_copied() {
    let one = Comparison(float(1.0));
    let other = one;
    assert_eq!(one.0, other.0);
}
