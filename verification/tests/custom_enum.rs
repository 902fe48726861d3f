use linfa_clustering::{EquivalenceTarget, KModes, KModesInit, Matrix};
use vstd::prelude::View;

#[derive(Clone, Copy, PartialEq, Eq, Hash, Debug)]
enum Weather {
    Sunny,
    Rainy,
    Overcast,
}

impl View for Weather {
    type V = Weather;

    fn view(&self) -> Weather {
        *self
    }
}

impl EquivalenceTarget for Weather {
    fn equivalent(&self, other: &Self) -> bool {
        *self == *other
    }

    fn duplicate(&self) -> Self {
        *self
    }
}

#[test]
fn test_kmodes_types_custom_enum() {
    let data = Matrix::from_rows(vec![
        vec![Weather::Sunny, Weather::Sunny],
        vec![Weather::Sunny, Weather::Sunny],
        vec![Weather::Rainy, Weather::Rainy],
        vec![Weather::Rainy, Weather::Rainy],
        vec![Weather::Overcast, Weather::Overcast],
        vec![Weather::Overcast, Weather::Overcast],
    ])
    .unwrap();
    let model = KModes::params(3)
        .init_method(KModesInit::Cao)
        .fit(&data)
        .unwrap();

    assert_eq!(model.modes().dim(), (3, 2));
    assert_eq!(model.cost(), 0);

    let preds = model.predict(&data);
    assert_eq!(preds[0], preds[1]);
    assert_eq!(preds[2], preds[3]);
    assert_eq!(preds[4], preds[5]);
}
