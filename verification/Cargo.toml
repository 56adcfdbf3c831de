[package]
name = "ankurah-xray"
version = "0.1.0"
edition = "2021"
publish = false

[dependencies]
ankurah = "=0.9.0"
ankurah-signals = "=0.9.0"
async-trait = "0.1"
js-sys = "=0.3.82"
leptos = "=0.8.14"
leptos_macro = "=0.8.14"
# Not called: later releases of these two do not build with leptos 0.8.14.
leptos_hot_reload = "=0.8.5"
server_fn_macro = "=0.8.8"
send_wrapper = "0.6"
wasm-bindgen = "=0.2.105"
wasm-bindgen-futures = "=0.4.55"
yrs = "=0.24.0"

[dependencies.web-sys]
version = "=0.3.82"
features = [
    "Document",
    "DomRect",
    "Element",
    "Event",
    "EventTarget",
    "HtmlElement",
    "IdbDatabase",
    "IdbFactory",
    "IdbIndex",
    "IdbObjectStore",
    "IdbOpenDbRequest",
    "IdbRequest",
    "IdbTransaction",
    "IdbTransactionMode",
    "KeyboardEvent",
    "Location",
    "MouseEvent",
    "Node",
    "PointerEvent",
    "Storage",
    "UrlSearchParams",
    "Window",
]
