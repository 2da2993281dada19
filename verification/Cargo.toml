[package]
name = "csv_split"
version = "0.1.0"
edition = "2021"
publish = false

[dependencies]
bzip2 = "*"
csv = "*"
csv-core = "*"
flate2 = "*"
iou = "*"
itertools = "*"
structopt = "*"
