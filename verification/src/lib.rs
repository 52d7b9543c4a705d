pub mod birelational_map;
