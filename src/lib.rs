//! Streaming injection of a fixed payload in front of the first `</head>` tag of an HTML
//! document that arrives in chunks of arbitrary size.
pub mod injection_point_locator;
pub mod injector;
pub mod stream;
pub mod boundary;
