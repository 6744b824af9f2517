[package]
name = "geoq"
version = "0.1.0"
edition = "2021"
publish = false

[dependencies]
geohash = "=0.13.2"
regex = "=1.13.1"
once_cell = "=1.21.4"
serde_json = "=1.0.154"
geo = "=0.23.1"
geo-types = "=0.7.20"
geojson = "=0.24.2"
wkt = "=0.9.2"
clap = "=2.34.0"
flatgeobuf = { version = "=6.0.1", default-features = false }
flatbuffers = "=24.12.23"
geozero = "=0.15.1"
h3ron = "=0.18.0"
nom = "=5.1.3"
shapefile = "=0.9.0"
dbase = "=0.8.0"
reqwest = { version = "=0.11.27", default-features = false, features = ["blocking"] }
percent-encoding = "=1.0.1"
os_info = "=3.15.0"
os_type = "=2.6.0"
tempfile = "=3.27.0"
num_cpus = "=1.17.0"
rand = "=0.8.8"
