use vstd::prelude::*;

verus! {

/// One car record: model name, manufacturer, drive kind and price.
///
/// Two records with equal fields are equal; a record is never changed
/// after it has been built. The price is a non-negative integer in
/// whole currency units.
#[derive(Debug, Clone, PartialEq, Eq)]
pub struct Car {
    pub name: String,
    pub brand: String,
    pub is_electric: bool,
    pub cost: u32,
}

impl Car {
    /// The fixed five-record fleet that the tests query, in its
    /// documented order.
    pub fn sample() -> (r: Vec<Car>)
        ensures
            r@.len() == 5,
            r@[0].name@ == "Model 3"@ && r@[0].brand@ == "Tesla"@ && r@[0].cost == 60000
                && r@[0].is_electric,
            r@[1].name@ == "350z"@ && r@[1].brand@ == "Nissan"@ && r@[1].cost == 20000
                && !r@[1].is_electric,
            r@[2].name@ == "86"@ && r@[2].brand@ == "Toyota"@ && r@[2].cost == 45000
                && !r@[2].is_electric,
            r@[3].name@ == "i30"@ && r@[3].brand@ == "Hyundai"@ && r@[3].cost == 10000
                && !r@[3].is_electric,
            r@[4].name@ == "Model 3"@ && r@[4].brand@ == "Tesla"@ && r@[4].cost == 30000
                && r@[4].is_electric,
    {
        let mut r: Vec<Car> = Vec::new();
        r.push(Car {
            name: "Model 3".to_owned(),
            brand: "Tesla".to_owned(),
            cost: 60000,
            is_electric: true,
        });
        r.push(Car {
            name: "350z".to_owned(),
            brand: "Nissan".to_owned(),
            cost: 20000,
            is_electric: false,
        });
        r.push(Car {
            name: "86".to_owned(),
            brand: "Toyota".to_owned(),
            cost: 45000,
            is_electric: false,
        });
        r.push(Car {
            name: "i30".to_owned(),
            brand: "Hyundai".to_owned(),
            cost: 10000,
            is_electric: false,
        });
        r.push(Car {
            name: "Model 3".to_owned(),
            brand: "Tesla".to_owned(),
            cost: 30000,
            is_electric: true,
        });
        r
    }
}

} // verus!
