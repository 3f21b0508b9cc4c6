[package]
name = "car_queries"
version = "0.1.0"
edition = "2021"
publish = false
