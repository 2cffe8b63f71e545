//! List-entry model providers, with and without a masked item.

use graph_presenter::provider::AnyModelProvider;
use graph_presenter::provider::EmptyProvider;
use graph_presenter::provider::SingleMaskedProvider;

#[test]
fn test_masked_provider() {
    let test_data = vec!["A", "B", "C", "D"];
    let test_models: Vec<String> = test_data.into_iter().map(|label| label.to_owned()).collect();
    let provider = AnyModelProvider::new(test_models);
    let mut provider: SingleMaskedProvider = SingleMaskedProvider::new(provider);

    assert_eq!(provider.entry_count(), 4);
    assert_eq!(provider.get(0).unwrap(), "A");
    assert_eq!(provider.get(1).unwrap(), "B");
    assert_eq!(provider.get(2).unwrap(), "C");
    assert_eq!(provider.get(3).unwrap(), "D");

    provider.set_mask_raw(0);
    assert_eq!(provider.entry_count(), 3);
    assert_eq!(provider.get(0).unwrap(), "B");
    assert_eq!(provider.get(1).unwrap(), "C");
    assert_eq!(provider.get(2).unwrap(), "D");

    provider.set_mask_raw(1);
    assert_eq!(provider.entry_count(), 3);
    assert_eq!(provider.get(0).unwrap(), "A");
    assert_eq!(provider.get(1).unwrap(), "C");
    assert_eq!(provider.get(2).unwrap(), "D");

    provider.set_mask_raw(2);
    assert_eq!(provider.entry_count(), 3);
    assert_eq!(provider.get(0).unwrap(), "A");
    assert_eq!(provider.get(1).unwrap(), "B");
    assert_eq!(provider.get(2).unwrap(), "D");

    provider.set_mask_raw(3);
    assert_eq!(provider.entry_count(), 3);
    assert_eq!(provider.get(0).unwrap(), "A");
    assert_eq!(provider.get(1).unwrap(), "B");
    assert_eq!(provider.get(2).unwrap(), "C");
}

#[test]
fn empty_provider_serves_nothing() {
    let provider = EmptyProvider;
    assert_eq!(provider.entry_count(), 0);
    assert!(provider.get(0).is_none());
    let provider = AnyModelProvider::default();
    assert_eq!(provider.entry_count(), 0);
    assert!(provider.get(0).is_none());
}

#[test]
fn masked_index_arithmetic() {
    let provider = AnyModelProvider::new(vec!["a".to_owned(), "b".to_owned(), "c".to_owned()]);
    let mut provider = SingleMaskedProvider::new(provider);
    assert_eq!(provider.unmasked_index(1), 1);
    provider.set_mask_raw(1);
    assert_eq!(provider.unmasked_index(0), 0);
    assert_eq!(provider.unmasked_index(1), 2);
    // Masking through the *masked* view: visible index 1 is now "c".
    provider.set_mask(1);
    assert_eq!(provider.entry_count(), 2);
    assert_eq!(provider.get(0).unwrap(), "a");
    assert_eq!(provider.get(1).unwrap(), "b");
    provider.clear_mask();
    assert_eq!(provider.entry_count(), 3);
    assert_eq!(provider.get(2).unwrap(), "c");
}
