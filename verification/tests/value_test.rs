use prism_runtime::value::{AnyValue, Value};
use std::sync::Arc;

#[test]
fn round_trips() {
    let value = 13u32;
    let value = Value::from(value);
    let value = AnyValue::from(value);
    let value = value.try_downcast::<u32>().unwrap();
    assert_eq!(value.get_ref(), 13u32);
    let value = value.get();
    assert_eq!(value, 13u32);

    let value = Arc::new(13u32);
    let value = Value::from(value);
    let value = AnyValue::from(value);
    let value = value.try_downcast::<Arc<u32>>().unwrap();
    assert_eq!(*value.get_ref(), 13u32);
    let value = value.get();
    assert_eq!(value, Arc::new(13u32));
}
